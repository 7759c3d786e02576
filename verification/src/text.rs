use vstd::prelude::*;
use crate::order::seq_char_le;

verus! {

/// A common prefix of length `i` does not change how two character
/// sequences compare.
pub proof fn lemma_seq_char_le_common_prefix(a: Seq<char>, b: Seq<char>, i: int)
    requires
        0 <= i <= a.len(),
        i <= b.len(),
        forall|j: int| 0 <= j < i ==> a[j] == b[j],
    ensures
        seq_char_le(a, b) == seq_char_le(a.skip(i), b.skip(i)),
    decreases i,
{
    if i > 0 {
        assert(a.skip(0) =~= a);
        assert(b.skip(0) =~= b);
        assert(a.drop_first() =~= a.skip(1));
        assert(b.drop_first() =~= b.skip(1));
        vstd::utf8::char_u32_cast(a[0], a[0] as u32);
        vstd::utf8::char_u32_cast(b[0], b[0] as u32);
        assert(seq_char_le(a, b) == seq_char_le(a.skip(1), b.skip(1)));
        lemma_seq_char_le_common_prefix(a.skip(1), b.skip(1), i - 1);
        assert(a.skip(1).skip(i - 1) =~= a.skip(i));
        assert(b.skip(1).skip(i - 1) =~= b.skip(i));
    } else {
        assert(a.skip(0) =~= a);
        assert(b.skip(0) =~= b);
    }
}

/// Decides the lexicographic order of two strings by code point.
pub fn str_le(a: &str, b: &str) -> (r: bool)
    ensures
        r == seq_char_le(a@, b@),
{
    let alen = a.unicode_len();
    let blen = b.unicode_len();
    let mut i: usize = 0;
    loop
        invariant
            0 <= i <= alen,
            i <= blen,
            alen == a@.len(),
            blen == b@.len(),
            forall|j: int| 0 <= j < i ==> a@[j] == b@[j],
        decreases alen - i,
    {
        proof {
            lemma_seq_char_le_common_prefix(a@, b@, i as int);
        }
        if i == alen {
            proof {
                assert(a@.skip(i as int).len() == 0);
            }
            return true;
        }
        if i == blen {
            proof {
                assert(b@.skip(i as int).len() == 0);
                assert(a@.skip(i as int).len() > 0);
            }
            return false;
        }
        let ca = a.get_char(i);
        let cb = b.get_char(i);
        proof {
            assert(a@.skip(i as int)[0] == a@[i as int]);
            assert(b@.skip(i as int)[0] == b@[i as int]);
        }
        if (ca as u32) < (cb as u32) {
            return true;
        }
        if (cb as u32) < (ca as u32) {
            return false;
        }
        proof {
            vstd::utf8::char_u32_cast(ca, ca as u32);
            vstd::utf8::char_u32_cast(cb, cb as u32);
        }
        i += 1;
    }
}

/// What Unicode lower-casing yields for a character sequence: a
/// function of the characters alone, the same in every process.
pub uninterp spec fn lower_of(s: Seq<char>) -> Seq<char>;

/// Relies on `str::to_lowercase`: the result depends on the characters
/// alone.
#[verifier::external_body]
pub(crate) fn lowercase(s: &str) -> (r: String)
    ensures
        r@ == lower_of(s@),
{
    s.to_lowercase()
}

/// The index of the first `'\n'` in `s`, or `s.len()` if there is none.
pub open spec fn first_nl(s: Seq<char>) -> int
    decreases s.len(),
{
    if s.len() == 0 {
        0
    } else if s[0] == '\n' {
        0
    } else {
        1 + first_nl(s.drop_first())
    }
}

pub proof fn lemma_first_nl(s: Seq<char>)
    ensures
        0 <= first_nl(s) <= s.len(),
        first_nl(s) < s.len() ==> s[first_nl(s)] == '\n',
        forall|j: int| 0 <= j < first_nl(s) ==> s[j] != '\n',
    decreases s.len(),
{
    if s.len() > 0 && s[0] != '\n' {
        let d = s.drop_first();
        lemma_first_nl(d);
        assert(forall|j: int| 0 <= j < d.len() ==> #[trigger] d[j] == s[j + 1]);
        assert forall|j: int| 0 <= j < first_nl(s) implies s[j] != '\n' by {
            if j > 0 {
                assert(d[j - 1] == s[j]);
            }
        }
    }
}

/// A line with a trailing carriage return loses it.
pub open spec fn strip_cr(l: Seq<char>) -> Seq<char> {
    if l.len() > 0 && l[l.len() - 1] == '\r' {
        l.drop_last()
    } else {
        l
    }
}

/// The lines of `s`: split at each `'\n'`, a carriage return just before
/// the split dropped, and no empty line after a final `'\n'`.
pub open spec fn spec_lines(s: Seq<char>) -> Seq<Seq<char>>
    decreases s.len(),
    via spec_lines_decreases
{
    if s.len() == 0 {
        Seq::empty()
    } else {
        let i = first_nl(s);
        if i == s.len() {
            seq![s]
        } else {
            seq![strip_cr(s.take(i))] + spec_lines(s.skip(i + 1))
        }
    }
}

#[via_fn]
proof fn spec_lines_decreases(s: Seq<char>) {
    lemma_first_nl(s);
}

/// The index of the first `'\n'` at or after `from`, or the length.
fn find_nl(s: &str, from: usize) -> (r: usize)
    requires
        from <= s@.len(),
    ensures
        from <= r <= s@.len(),
        r < s@.len() ==> s@[r as int] == '\n',
        forall|j: int| from <= j < r ==> s@[j] != '\n',
{
    let len = s.unicode_len();
    let mut i: usize = from;
    while i < len
        invariant
            from <= i <= len,
            len == s@.len(),
            forall|j: int| from <= j < i ==> s@[j] != '\n',
        decreases len - i,
    {
        if s.get_char(i) == '\n' {
            return i;
        }
        i += 1;
    }
    len
}

/// Splits `s` into its lines, as [`spec_lines`] describes.
pub fn split_lines(s: &str) -> (r: Vec<String>)
    ensures
        crate::order::view_seq(r@) == spec_lines(s@),
{
    let len = s.unicode_len();
    let mut out: Vec<String> = Vec::new();
    let mut start: usize = 0;
    proof {
        assert(s@.skip(0) =~= s@);
        assert(crate::order::view_seq(out@) =~= Seq::<Seq<char>>::empty());
    }
    while start < len
        invariant
            0 <= start <= len,
            len == s@.len(),
            crate::order::view_seq(out@) + spec_lines(s@.skip(start as int)) == spec_lines(s@),
        decreases len - start,
    {
        let ghost rest = s@.skip(start as int);
        let ghost prev = crate::order::view_seq(out@);
        let nl = find_nl(s, start);
        proof {
            lemma_first_nl(rest);
            assert(forall|j: int| 0 <= j < rest.len() ==> #[trigger] rest[j] == s@[start + j]);
            if first_nl(rest) < nl - start {
                assert(s@[start + first_nl(rest)] == '\n');
            }
            if first_nl(rest) > nl - start && nl < len {
                assert(rest[nl - start] == '\n');
            }
            assert(first_nl(rest) == nl - start);
        }
        if nl == len {
            let line = s.substring_char(start, len).to_owned();
            proof {
                assert(line@ =~= rest);
                assert(spec_lines(rest) =~= seq![rest]);
                assert(crate::order::view_seq(out@.push(line)) =~= prev.push(line@));
                assert(prev.push(rest) + Seq::<Seq<char>>::empty() =~= prev + seq![rest]);
            }
            out.push(line);
            start = len;
            proof {
                assert(s@.skip(len as int).len() == 0);
                assert(crate::order::view_seq(out@) + spec_lines(s@.skip(len as int)) =~= prev
                    + seq![rest]);
                assert(prev + spec_lines(rest) == spec_lines(s@));
            }
        } else {
            let end = if nl > start && s.get_char(nl - 1) == '\r' {
                proof {
                    assert(rest[nl - 1 - start] == '\r');
                }
                nl - 1
            } else {
                nl
            };
            let line = s.substring_char(start, end).to_owned();
            proof {
                assert(line@ =~= s@.subrange(start as int, end as int));
                assert(rest.take(nl - start) =~= s@.subrange(start as int, nl as int));
                if end < nl {
                    assert(rest.take(nl - start).drop_last() =~= s@.subrange(
                        start as int,
                        end as int,
                    ));
                    assert(rest.take(nl - start)[nl - start - 1] == s@[nl - 1]);
                } else {
                    assert(nl - start < rest.len());
                    if rest.take(nl - start).len() > 0 && rest.take(nl - start)[nl - start - 1]
                        == '\r' {
                        assert(s@[nl - 1] == '\r');
                    }
                }
                assert(line@ =~= strip_cr(rest.take(nl - start)));
                assert(rest.skip(nl - start + 1) =~= s@.skip(nl + 1));
                assert(spec_lines(rest) == seq![strip_cr(rest.take(nl - start))] + spec_lines(
                    s@.skip(nl + 1),
                ));
            }
            out.push(line);
            start = nl + 1;
            proof {
                assert(crate::order::view_seq(out@) =~= prev.push(line@));
                assert(prev.push(line@) + spec_lines(s@.skip(start as int)) =~= prev + (seq![
                    line@] + spec_lines(s@.skip(start as int))));
                assert(crate::order::view_seq(out@) + spec_lines(s@.skip(start as int))
                    == spec_lines(s@));
            }
        }
    }
    proof {
        assert(s@.skip(start as int).len() == 0);
        assert(crate::order::view_seq(out@) + spec_lines(s@.skip(start as int))
            =~= crate::order::view_seq(out@));
    }
    out
}

/// Decides whether two strings hold the same characters.
pub fn str_eq(a: &str, b: &str) -> (r: bool)
    ensures
        r == (a@ == b@),
{
    let alen = a.unicode_len();
    let blen = b.unicode_len();
    if alen != blen {
        return false;
    }
    let mut i: usize = 0;
    while i < alen
        invariant
            0 <= i <= alen,
            alen == a@.len(),
            alen == b@.len(),
            forall|j: int| 0 <= j < i ==> a@[j] == b@[j],
        decreases alen - i,
    {
        let ca = a.get_char(i);
        let cb = b.get_char(i);
        if ca != cb {
            return false;
        }
        i += 1;
    }
    proof {
        assert(a@ =~= b@);
    }
    true
}

} // verus!
