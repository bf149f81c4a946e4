use crate::api::write::{pieces_text, repeated, write_fmt, Piece};
use crate::writer::{fitting, BytesWriter, NUL};
use vstd::prelude::*;

verus! {

/// The index of the first `NUL` of `text`, or the length of `text` where it
/// holds none.
pub open spec fn nul_position(text: Seq<u8>) -> nat
    decreases text.len(),
{
    if text.len() == 0 || text[0] == NUL {
        0
    } else {
        1 + nul_position(text.skip(1))
    }
}

/// What a reader of C strings sees of `text`: the bytes before its first
/// `NUL`.
pub open spec fn until_nul(text: Seq<u8>) -> Seq<u8> {
    text.take(nul_position(text) as int)
}

/// The first `limit` bytes of `text`, or all of it where it has no more.
pub open spec fn truncated(text: Seq<u8>, limit: nat) -> Seq<u8> {
    text.take(fitting(text.len(), limit) as int)
}

/// `text` in a storage of `capacity` bytes: every byte behind it is `NUL`.
pub open spec fn zero_filled(text: Seq<u8>, capacity: nat) -> Seq<u8> {
    text + repeated(NUL, (capacity - text.len()) as nat)
}

/// The first `NUL` stands behind every prefix that holds none, and right
/// behind one that a `NUL` or the end of the text follows.
pub proof fn lemma_nul_position(text: Seq<u8>, len: int)
    requires
        0 <= len <= text.len(),
        forall|i: int| 0 <= i < len ==> text[i] != NUL,
    ensures
        len <= nul_position(text) <= text.len(),
        len == text.len() || text[len] == NUL ==> nul_position(text) == len,
    decreases text.len(),
{
    if text.len() != 0 && text[0] != NUL {
        let rest = text.skip(1);
        if len == 0 {
            lemma_nul_position(rest, 0);
        } else {
            assert forall|i: int| 0 <= i < len - 1 implies rest[i] != NUL by {
                assert(rest[i] == text[i + 1]);
            }
            lemma_nul_position(rest, len - 1);
        }
    }
}

/// No byte in front of the first `NUL` is a `NUL`, and the byte at its
/// position is one, unless the text ends there.
pub proof fn lemma_first_nul(text: Seq<u8>)
    ensures
        nul_position(text) <= text.len(),
        forall|i: int| 0 <= i < nul_position(text) ==> text[i] != NUL,
        nul_position(text) < text.len() ==> text[nul_position(text) as int] == NUL,
    decreases text.len(),
{
    if text.len() != 0 && text[0] != NUL {
        let rest = text.skip(1);
        lemma_first_nul(rest);
        assert forall|i: int| 0 <= i < nul_position(text) implies text[i] != NUL by {
            if i > 0 {
                assert(text[i] == rest[i - 1]);
            }
        }
    }
}

/// A reader of C strings sees the same of a text and of the storage that
/// holds it with room to spare.
pub proof fn lemma_until_nul_of_zero_filled(text: Seq<u8>, capacity: nat)
    requires
        text.len() < capacity,
    ensures
        until_nul(zero_filled(text, capacity)) == until_nul(text),
        until_nul(text).len() < capacity,
{
    let storage = zero_filled(text, capacity);
    let end = nul_position(text);
    lemma_first_nul(text);
    assert forall|i: int| 0 <= i < end implies storage[i] != NUL by {
        assert(storage[i] == text[i]);
    }
    lemma_nul_position(storage, end as int);
    assert(storage.take(end as int) =~= text.take(end as int));
}

/// Text of any length, cut to its storage, fills the storage exactly and
/// leaves a `NUL` in its last byte. Text that does not fit is cut: the
/// storage holds the first `capacity - 1` bytes of it and the `NUL`.
pub proof fn lemma_cut_text_is_terminated(text: Seq<u8>, capacity: nat)
    requires
        0 < capacity,
    ensures
        zero_filled(truncated(text, (capacity - 1) as nat), capacity).len() == capacity,
        zero_filled(truncated(text, (capacity - 1) as nat), capacity)[capacity - 1] == NUL,
        text.len() >= capacity - 1 ==> zero_filled(
            truncated(text, (capacity - 1) as nat),
            capacity,
        ) == text.take(capacity - 1).push(NUL),
{
    if text.len() >= capacity - 1 {
        assert(zero_filled(truncated(text, (capacity - 1) as nat), capacity) =~= text.take(
            capacity - 1,
        ).push(NUL));
    }
}

/// A stack-allocated buffer that stores a C string.
///
/// For a given `LEN`, it stores up to `LEN - 1` actual characters: its last
/// byte is always `NUL`.
pub struct SmallCString<const LEN: usize>([u8; LEN]);

impl<const LEN: usize> View for SmallCString<LEN> {
    type V = Seq<u8>;

    /// The C string: the stored bytes before the first `NUL`.
    closed spec fn view(&self) -> Seq<u8> {
        until_nul(self.0@)
    }
}

impl<const LEN: usize> SmallCString<LEN> {
    #[verifier::type_invariant]
    spec fn terminated(self) -> bool {
        0 < LEN && self.0@[LEN - 1] == NUL
    }

    /// All `LEN` bytes of the storage.
    pub closed spec fn bytes(&self) -> Seq<u8> {
        self.0@
    }

    /// Converts directly from a byte slice.
    ///
    /// The string ends before the first `NUL` of `rust`, and after `LEN - 1`
    /// characters at the latest. The rest of the storage is filled with `NUL`.
    pub fn new(rust: &[u8]) -> (string: Self)
        requires
            0 < LEN,
        ensures
            string.bytes() == zero_filled(
                truncated(until_nul(rust@), (LEN - 1) as nat),
                LEN as nat,
            ),
            string@ == truncated(until_nul(rust@), (LEN - 1) as nat),
            string@.len() < LEN,
    {
        let mut storage: [u8; LEN] = [NUL; LEN];
        let mut i: usize = 0;
        while i < LEN - 1 && i < rust.len() && rust[i] != NUL
            invariant
                0 < LEN,
                0 <= i <= LEN - 1,
                i <= rust@.len(),
                forall|j: int| 0 <= j < i ==> rust@[j] != NUL,
                storage@.take(i as int) == rust@.take(i as int),
                forall|j: int| i <= j < LEN ==> storage@[j] == NUL,
            decreases LEN - i,
        {
            storage[i] = rust[i];
            assert(storage@.take(i + 1) =~= rust@.take(i + 1)) by {
                assert(storage@.take(i + 1).drop_last() =~= storage@.take(i as int));
                assert(rust@.take(i + 1).drop_last() =~= rust@.take(i as int));
            }
            i += 1;
        }
        let ghost kept = rust@.take(i as int);
        proof {
            lemma_nul_position(rust@, i as int);
            assert(truncated(until_nul(rust@), (LEN - 1) as nat) =~= kept);
            assert(storage@ =~= zero_filled(kept, LEN as nat));
            assert forall|j: int| 0 <= j < i implies storage@[j] != NUL by {
                assert(storage@[j] == storage@.take(i as int)[j]);
            }
            lemma_nul_position(storage@, i as int);
            assert(until_nul(storage@) =~= kept);
        }
        Self(storage)
    }

    /// Writes the message `pieces` into a new instance, without allocating.
    ///
    /// What does not fit into `LEN - 1` characters is dropped. The message may
    /// hold `NUL` bytes: the C string ends early in that case.
    pub fn from_format(pieces: &[Piece<'_>]) -> (string: Self)
        requires
            0 < LEN,
        ensures
            string.bytes() == zero_filled(
                truncated(pieces_text(pieces@), (LEN - 1) as nat),
                LEN as nat,
            ),
            string@ == until_nul(truncated(pieces_text(pieces@), (LEN - 1) as nat)),
            string@.len() < LEN,
    {
        let mut storage: [u8; LEN] = [NUL; LEN];
        let (head, last) = storage.split_at_mut(LEN - 1);
        assert(last@[0] == NUL);
        assert(head@ =~= repeated(NUL, (LEN - 1) as nat));
        let mut writer = BytesWriter::new(head);
        write_fmt(&mut writer, pieces);
        proof {
            let text = truncated(pieces_text(pieces@), (LEN - 1) as nat);
            assert(storage@ =~= zero_filled(text, LEN as nat));
            lemma_until_nul_of_zero_filled(text, LEN as nat);
        }
        Self(storage)
    }

    /// The actual C string: a region of `LEN` bytes that holds the text, a
    /// `NUL` right behind it, and a `NUL` in its last byte.
    pub fn as_c(&self) -> (region: &[u8])
        ensures
            region@ == self.bytes(),
            region@.len() == LEN,
            self@ == until_nul(region@),
            self@.len() < LEN,
            region@[self@.len() as int] == NUL,
            region@[LEN - 1] == NUL,
    {
        proof {
            use_type_invariant(self);
            lemma_first_nul(self.0@);
        }
        self.0.as_slice()
    }
}

/// A convenience alias for `SmallCString::new`.
pub fn cstr<const LEN: usize>(rust: &[u8]) -> (string: SmallCString<LEN>)
    requires
        0 < LEN,
    ensures
        string.bytes() == zero_filled(truncated(until_nul(rust@), (LEN - 1) as nat), LEN as nat),
        string@ == truncated(until_nul(rust@), (LEN - 1) as nat),
        string@.len() < LEN,
{
    SmallCString::new(rust)
}

} // verus!
