//! The resolver: rewrite a byte sequence, decoding backslash escapes.
//!
//! Four strategies share one contract: the output equals
//! `model::unescaped` of the input. They differ only in mechanism:
//! byte-at-a-time rebuild, in-place splice of the caller's buffer, bulk
//! copy of unescaped runs into a growable buffer, and bulk copy into a
//! destination pre-sized to the source length that is truncated to the
//! bytes actually written.

use vstd::prelude::*;
use vstd::slice::{slice_subrange, slice_to_vec};

use crate::model::{decoded_pair, unescaped, BACKSLASH, LETTER_N, NEWLINE};
use crate::model::{lemma_clean_prefix, lemma_step_pair, lemma_step_plain, lemma_step_trailing};

verus! {

/// Rebuild-by-character: walk the input one byte at a time, appending each
/// byte's decoding to a fresh buffer.
pub fn char_loop(s: &[u8]) -> (r: Vec<u8>)
    ensures
        r@ == unescaped(s@),
{
    let mut result: Vec<u8> = Vec::with_capacity(s.len());
    let mut i: usize = 0;
    proof {
        assert(s@.skip(0) =~= s@);
        assert(result@ + unescaped(s@) =~= unescaped(s@));
    }
    while i < s.len()
        invariant
            i <= s@.len(),
            result@ + unescaped(s@.skip(i as int)) == unescaped(s@),
        decreases s@.len() - i,
    {
        let ghost prev = result@;
        let b = s[i];
        if b == BACKSLASH {
            if i + 1 < s.len() {
                let c = s[i + 1];
                if c == BACKSLASH {
                    result.push(BACKSLASH);
                } else if c == LETTER_N {
                    result.push(NEWLINE);
                } else {
                    // Unrecognized escape: pass both bytes through.
                    result.push(BACKSLASH);
                    result.push(c);
                }
                proof {
                    lemma_step_pair(s@, i as int);
                    assert(result@ =~= prev + decoded_pair(c));
                    assert(result@ + unescaped(s@.skip(i + 2))
                        =~= prev + unescaped(s@.skip(i as int)));
                }
                i = i + 2;
            } else {
                // A trailing backslash passes through on its own.
                result.push(BACKSLASH);
                proof {
                    lemma_step_trailing(s@, i as int);
                    assert(s@.skip(i + 1) =~= Seq::<u8>::empty());
                    assert(result@ + unescaped(s@.skip(i + 1))
                        =~= prev + unescaped(s@.skip(i as int)));
                }
                i = i + 1;
            }
        } else {
            result.push(b);
            proof {
                lemma_step_plain(s@, i as int);
                assert(result@ + unescaped(s@.skip(i + 1))
                    =~= prev + unescaped(s@.skip(i as int)));
            }
            i = i + 1;
        }
    }
    proof {
        assert(s@.skip(i as int) =~= Seq::<u8>::empty());
        assert(result@ + unescaped(s@.skip(i as int)) =~= result@);
    }
    result
}

/// In-place splice: repeatedly finds the next backslash in the caller's
/// buffer and resolves the pair there, removing the second byte of `\\`,
/// collapsing `\n` to one newline byte, and leaving an unrecognized pair or
/// a trailing backslash untouched. The buffer shrinks as it is resolved;
/// bytes before the cursor are final and are never rescanned.
pub fn splice(s: &mut Vec<u8>)
    ensures
        final(s)@ == unescaped(old(s)@),
{
    let ghost orig = old(s)@;
    let mut cursor: usize = 0;
    proof {
        assert(s@.skip(0) =~= orig);
        assert(s@.take(0) + unescaped(orig) =~= unescaped(orig));
    }
    while cursor < s.len()
        invariant
            cursor <= s@.len(),
            s@.take(cursor as int) + unescaped(s@.skip(cursor as int)) == unescaped(orig),
        decreases s@.len() - cursor,
    {
        // Look for the next backslash at or after the cursor.
        let mut j: usize = cursor;
        while j < s.len() && s[j] != BACKSLASH
            invariant
                cursor <= j <= s@.len(),
                forall|t: int| cursor <= t < j ==> s@[t] != BACKSLASH,
            decreases s@.len() - j,
        {
            j = j + 1;
        }
        let ghost olds = s@;
        proof {
            assert(forall|t: int| 0 <= t < j - cursor
                ==> olds.skip(cursor as int)[t] == olds[t + cursor] && olds.skip(cursor as int)[t] != BACKSLASH);
            lemma_clean_prefix(olds.skip(cursor as int), j - cursor);
            assert(olds.skip(cursor as int).skip(j - cursor) =~= olds.skip(j as int));
        }
        if j >= s.len() {
            // No more backslashes: the rest passes through as it stands.
            proof {
                assert(olds.skip(j as int) =~= Seq::<u8>::empty());
                assert(olds.take(j as int) + unescaped(olds.skip(j as int))
                    =~= olds.take(cursor as int) + (olds.skip(cursor as int).take(j - cursor)
                        + unescaped(olds.skip(j as int))));
            }
            cursor = j;
        } else if j + 1 >= s.len() {
            // The backslash is the final byte: pass it through.
            proof {
                lemma_step_trailing(olds, j as int);
                assert(olds.take(j + 1) + unescaped(olds.skip(j + 1))
                    =~= olds.take(cursor as int) + (olds.skip(cursor as int).take(j - cursor)
                        + unescaped(olds.skip(j as int))));
            }
            cursor = j + 1;
        } else {
            let c = s[j + 1];
            proof {
                lemma_step_pair(olds, j as int);
            }
            if c == BACKSLASH {
                // Two backslashes in a row: delete the second one.
                s.remove(j + 1);
                proof {
                    assert(s@.skip(j + 1) =~= olds.skip(j + 2));
                    assert(s@.take(j + 1) + unescaped(olds.skip(j + 2))
                        =~= olds.take(cursor as int) + (olds.skip(cursor as int).take(j - cursor)
                            + (seq![BACKSLASH] + unescaped(olds.skip(j + 2)))));
                }
            } else if c == LETTER_N {
                // Backslash then `n`: collapse the pair to one newline byte.
                s[j] = NEWLINE;
                s.remove(j + 1);
                proof {
                    assert(s@.skip(j + 1) =~= olds.skip(j + 2));
                    assert(s@.take(j + 1) + unescaped(olds.skip(j + 2))
                        =~= olds.take(cursor as int) + (olds.skip(cursor as int).take(j - cursor)
                            + (seq![NEWLINE] + unescaped(olds.skip(j + 2)))));
                }
            } else {
                // Unrecognized escape: keep both bytes as they stand.
                proof {
                    lemma_step_plain(olds, j + 1);
                    assert(olds.take(j + 1) + (seq![c] + unescaped(olds.skip(j + 2)))
                        =~= olds.take(cursor as int) + (olds.skip(cursor as int).take(j - cursor)
                            + (seq![BACKSLASH, c] + unescaped(olds.skip(j + 2)))));
                }
            }
            // The byte at the backslash's position is now final; resume
            // right after it, so resolved bytes are never rescanned.
            cursor = j + 1;
        }
    }
    proof {
        assert(s@.skip(cursor as int) =~= Seq::<u8>::empty());
        assert(s@.take(cursor as int) + unescaped(s@.skip(cursor as int)) =~= s@);
    }
}

/// Chunked bulk copy into a growable buffer: copies the longest run of
/// non-backslash bytes in one bulk step, then decodes the single escape
/// pair after the run, and repeats.
pub fn chunk_loop_vec(s: &[u8]) -> (r: Vec<u8>)
    ensures
        r@ == unescaped(s@),
{
    let mut result: Vec<u8> = Vec::with_capacity(s.len());
    let mut i: usize = 0;
    proof {
        assert(s@.skip(0) =~= s@);
        assert(result@ + unescaped(s@) =~= unescaped(s@));
    }
    while i < s.len()
        invariant
            i <= s@.len(),
            result@ + unescaped(s@.skip(i as int)) == unescaped(s@),
        decreases s@.len() - i,
    {
        // Find the end of the run of non-backslash bytes.
        let mut j: usize = i;
        while j < s.len() && s[j] != BACKSLASH
            invariant
                i <= j <= s@.len(),
                forall|t: int| i <= t < j ==> s@[t] != BACKSLASH,
            decreases s@.len() - j,
        {
            j = j + 1;
        }
        let ghost prev = result@;
        proof {
            assert(forall|t: int| 0 <= t < j - i
                ==> s@.skip(i as int)[t] == s@[t + i] && s@.skip(i as int)[t] != BACKSLASH);
            lemma_clean_prefix(s@.skip(i as int), j - i);
            assert(s@.skip(i as int).skip(j - i) =~= s@.skip(j as int));
        }
        // Copy the whole run in bulk.
        let mut run: Vec<u8> = slice_to_vec(slice_subrange(s, i, j));
        result.append(&mut run);
        proof {
            assert(result@ =~= prev + s@.skip(i as int).take(j - i));
        }
        if j >= s.len() {
            i = j;
        } else if j + 1 < s.len() {
            // Decode the single escape pair after the run.
            let ghost mid = result@;
            let c = s[j + 1];
            if c == BACKSLASH {
                result.push(BACKSLASH);
            } else if c == LETTER_N {
                result.push(NEWLINE);
            } else {
                // Unrecognized escape: pass both bytes through.
                result.push(BACKSLASH);
                result.push(c);
            }
            proof {
                lemma_step_pair(s@, j as int);
                assert(result@ =~= mid + decoded_pair(c));
                assert(result@ + unescaped(s@.skip(j + 2))
                    =~= prev + unescaped(s@.skip(i as int)));
            }
            i = j + 2;
        } else {
            // A trailing backslash passes through on its own.
            result.push(BACKSLASH);
            proof {
                lemma_step_trailing(s@, j as int);
                assert(s@.skip(j + 1) =~= Seq::<u8>::empty());
                assert(result@ + unescaped(s@.skip(j + 1))
                    =~= prev + unescaped(s@.skip(i as int)));
            }
            i = j + 1;
        }
    }
    proof {
        assert(s@.skip(i as int) =~= Seq::<u8>::empty());
        assert(result@ + unescaped(s@.skip(i as int)) =~= result@);
    }
    result
}

/// Chunked bulk copy into a pre-sized buffer: the destination is allocated
/// once at the source's length (resolution never grows the text, so that is
/// always enough), every byte is written through a tracked write cursor,
/// and the buffer is truncated to the bytes actually written before it is
/// returned. This trades the growable buffer's capacity bookkeeping for
/// manual accounting of the two cursors.
pub fn chunk_loop_box(s: &[u8]) -> (r: Vec<u8>)
    ensures
        r@ == unescaped(s@),
{
    let mut result: Vec<u8> = Vec::with_capacity(s.len());
    result.resize(s.len(), 0);
    let mut src: usize = 0;
    let mut dst: usize = 0;
    proof {
        assert(s@.skip(0) =~= s@);
        assert(result@.take(0) + unescaped(s@) =~= unescaped(s@));
    }
    while src < s.len()
        invariant
            src <= s@.len(),
            dst <= src,
            result@.len() == s@.len(),
            result@.take(dst as int) + unescaped(s@.skip(src as int)) == unescaped(s@),
        decreases s@.len() - src,
    {
        // Find the end of the run of non-backslash bytes.
        let mut j: usize = src;
        while j < s.len() && s[j] != BACKSLASH
            invariant
                src <= j <= s@.len(),
                forall|t: int| src <= t < j ==> s@[t] != BACKSLASH,
            decreases s@.len() - j,
        {
            j = j + 1;
        }
        proof {
            assert(forall|t: int| 0 <= t < j - src
                ==> s@.skip(src as int)[t] == s@[t + src] && s@.skip(src as int)[t] != BACKSLASH);
            lemma_clean_prefix(s@.skip(src as int), j - src);
            assert(s@.skip(src as int).skip(j - src) =~= s@.skip(j as int));
        }
        // Copy the run through tracked indexed writes.
        let ghost dst0: int = dst as int;
        let ghost res0 = result@;
        let mut k: usize = src;
        while k < j
            invariant
                src <= k <= j <= s@.len(),
                dst0 <= src,
                dst == dst0 + (k - src),
                result@.len() == s@.len(),
                result@.take(dst as int) == res0.take(dst0) + s@.subrange(src as int, k as int),
            decreases j - k,
        {
            let ghost before = result@;
            result[dst] = s[k];
            proof {
                assert(result@.take(dst + 1) =~= before.take(dst as int) + seq![s@[k as int]]);
                assert(s@.subrange(src as int, k + 1)
                    =~= s@.subrange(src as int, k as int) + seq![s@[k as int]]);
            }
            dst = dst + 1;
            k = k + 1;
        }
        let ghost mid = result@;
        proof {
            assert(s@.skip(src as int).take(j - src) =~= s@.subrange(src as int, j as int));
            assert(mid.take(dst as int) + unescaped(s@.skip(j as int))
                =~= res0.take(dst0) + unescaped(s@.skip(src as int)));
        }
        if j >= s.len() {
            src = j;
        } else if j + 1 < s.len() {
            // Decode the single escape pair after the run.
            let c = s[j + 1];
            if c == BACKSLASH {
                result[dst] = BACKSLASH;
                proof {
                    assert(result@.take(dst + 1) =~= mid.take(dst as int) + decoded_pair(c));
                }
                dst = dst + 1;
            } else if c == LETTER_N {
                result[dst] = NEWLINE;
                proof {
                    assert(result@.take(dst + 1) =~= mid.take(dst as int) + decoded_pair(c));
                }
                dst = dst + 1;
            } else {
                // Unrecognized escape: pass both bytes through.
                result[dst] = BACKSLASH;
                result[dst + 1] = c;
                proof {
                    assert(result@.take(dst + 2) =~= mid.take(dst as int) + decoded_pair(c));
                }
                dst = dst + 2;
            }
            proof {
                lemma_step_pair(s@, j as int);
                assert(result@.take(dst as int) + unescaped(s@.skip(j + 2))
                    =~= mid.take(dst0 + (j - src)) + unescaped(s@.skip(j as int)));
            }
            src = j + 2;
        } else {
            // A trailing backslash passes through on its own.
            result[dst] = BACKSLASH;
            proof {
                lemma_step_trailing(s@, j as int);
                assert(s@.skip(j + 1) =~= Seq::<u8>::empty());
                assert(result@.take(dst + 1) =~= mid.take(dst as int) + seq![BACKSLASH]);
                assert(result@.take(dst + 1) + unescaped(s@.skip(j + 1))
                    =~= mid.take(dst as int) + unescaped(s@.skip(j as int)));
            }
            dst = dst + 1;
            src = j + 1;
        }
    }
    proof {
        assert(s@.skip(src as int) =~= Seq::<u8>::empty());
        assert(result@.take(dst as int) + unescaped(s@.skip(src as int))
            =~= result@.take(dst as int));
    }
    // Expose only the bytes that were written.
    result.truncate(dst);
    result
}

} // verus!
