//! The mathematical model of escape detection and resolution.
//!
//! `unescaped` states, once, what every resolver strategy must compute;
//! `has_backslash` states what the detector decides. The step lemmas unfold
//! `unescaped` at an arbitrary offset, which is how the loop invariants of
//! the executable strategies are maintained.

use vstd::prelude::*;

verus! {

/// The escape-introducer byte, ASCII `\`.
pub const BACKSLASH: u8 = 92;

/// The ASCII letter `n`; the pair `\n` decodes to a newline byte.
pub const LETTER_N: u8 = 110;

/// The ASCII newline byte, the decoding of the pair `\n`.
pub const NEWLINE: u8 = 10;

/// Whether the sequence holds at least one backslash byte.
pub open spec fn has_backslash(s: Seq<u8>) -> bool {
    exists|i: int| 0 <= i < s.len() && s[i] == BACKSLASH
}

/// What a backslash-led pair decodes to: `\\` to one backslash, `\n` to one
/// newline byte, and any other pair passes through verbatim.
pub open spec fn decoded_pair(c: u8) -> Seq<u8> {
    if c == BACKSLASH {
        seq![BACKSLASH]
    } else if c == LETTER_N {
        seq![NEWLINE]
    } else {
        seq![BACKSLASH, c]
    }
}

/// The resolution of a byte sequence, scanning strictly left to right in
/// non-overlapping steps: a byte that is not a backslash passes through; a
/// backslash followed by another byte consumes both and emits the pair's
/// decoding; a trailing backslash with nothing after it passes through.
pub open spec fn unescaped(s: Seq<u8>) -> Seq<u8>
    decreases s.len(),
{
    if s.len() == 0 {
        Seq::empty()
    } else if s[0] != BACKSLASH {
        seq![s[0]] + unescaped(s.skip(1))
    } else if s.len() == 1 {
        seq![BACKSLASH]
    } else {
        decoded_pair(s[1]) + unescaped(s.skip(2))
    }
}

/// Resolution emits a byte that is not a backslash verbatim and moves on.
pub proof fn lemma_step_plain(s: Seq<u8>, i: int)
    requires
        0 <= i < s.len(),
        s[i] != BACKSLASH,
    ensures
        unescaped(s.skip(i)) == seq![s[i]] + unescaped(s.skip(i + 1)),
{
    assert(s.skip(i)[0] == s[i]);
    assert(s.skip(i).skip(1) =~= s.skip(i + 1));
}

/// Resolution consumes a backslash and the byte after it as one pair.
pub proof fn lemma_step_pair(s: Seq<u8>, i: int)
    requires
        0 <= i,
        i + 1 < s.len(),
        s[i] == BACKSLASH,
    ensures
        unescaped(s.skip(i)) == decoded_pair(s[i + 1]) + unescaped(s.skip(i + 2)),
{
    assert(s.skip(i)[0] == BACKSLASH);
    assert(s.skip(i)[1] == s[i + 1]);
    assert(s.skip(i).skip(2) =~= s.skip(i + 2));
}

/// A backslash that is the final byte passes through on its own.
pub proof fn lemma_step_trailing(s: Seq<u8>, i: int)
    requires
        0 <= i,
        i == s.len() - 1,
        s[i] == BACKSLASH,
    ensures
        unescaped(s.skip(i)) == seq![BACKSLASH],
{
    assert(s.skip(i).len() == 1);
    assert(s.skip(i)[0] == BACKSLASH);
}

/// A run of non-backslash bytes passes through verbatim: when the first `k`
/// bytes of `s` hold no backslash, resolving `s` emits them unchanged and
/// then resolves the rest.
pub proof fn lemma_clean_prefix(s: Seq<u8>, k: int)
    requires
        0 <= k <= s.len(),
        forall|i: int| 0 <= i < k ==> s[i] != BACKSLASH,
    ensures
        unescaped(s) == s.take(k) + unescaped(s.skip(k)),
    decreases k,
{
    if k == 0 {
        assert(s.skip(0) =~= s);
        assert(s.take(0) + unescaped(s) =~= unescaped(s));
    } else {
        let t = s.skip(1);
        assert(forall|i: int| 0 <= i < k - 1 ==> t[i] == s[i + 1] && t[i] != BACKSLASH);
        lemma_clean_prefix(t, k - 1);
        assert(t.skip(k - 1) =~= s.skip(k));
        assert(seq![s[0]] + (t.take(k - 1) + unescaped(s.skip(k)))
            =~= s.take(k) + unescaped(s.skip(k)));
    }
}

/// Pass-through law: a sequence that holds no backslash resolves to itself.
pub proof fn lemma_unescaped_identity(s: Seq<u8>)
    requires
        !has_backslash(s),
    ensures
        unescaped(s) == s,
{
    assert(forall|i: int| 0 <= i < s.len() ==> s[i] != BACKSLASH);
    lemma_clean_prefix(s, s.len() as int);
    assert(s.skip(s.len() as int) =~= Seq::<u8>::empty());
    assert(s.take(s.len() as int) + unescaped(s.skip(s.len() as int)) =~= s);
}

} // verus!
