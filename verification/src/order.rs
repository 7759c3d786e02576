use vstd::prelude::*;

verus! {

/// Lexicographic "less than or equal" on character sequences, comparing
/// code points position by position.
pub open spec fn seq_char_le(a: Seq<char>, b: Seq<char>) -> bool
    decreases a.len(),
{
    if a.len() == 0 {
        true
    } else if b.len() == 0 {
        false
    } else if (a[0] as u32) < (b[0] as u32) {
        true
    } else if (b[0] as u32) < (a[0] as u32) {
        false
    } else {
        seq_char_le(a.drop_first(), b.drop_first())
    }
}

pub proof fn lemma_seq_char_le_total(a: Seq<char>, b: Seq<char>)
    ensures
        seq_char_le(a, b) || seq_char_le(b, a),
    decreases a.len(),
{
    if a.len() > 0 && b.len() > 0 && a[0] as u32 == b[0] as u32 {
        lemma_seq_char_le_total(a.drop_first(), b.drop_first());
    }
}

pub proof fn lemma_seq_char_le_antisym(a: Seq<char>, b: Seq<char>)
    requires
        seq_char_le(a, b),
        seq_char_le(b, a),
    ensures
        a == b,
    decreases a.len(),
{
    if a.len() > 0 && b.len() > 0 {
        vstd::utf8::char_u32_cast(a[0], a[0] as u32);
        vstd::utf8::char_u32_cast(b[0], b[0] as u32);
        lemma_seq_char_le_antisym(a.drop_first(), b.drop_first());
        assert(a =~= seq![a[0]] + a.drop_first());
        assert(b =~= seq![b[0]] + b.drop_first());
    }
}

pub proof fn lemma_seq_char_le_trans(a: Seq<char>, b: Seq<char>, c: Seq<char>)
    requires
        seq_char_le(a, b),
        seq_char_le(b, c),
    ensures
        seq_char_le(a, c),
    decreases a.len(),
{
    if a.len() > 0 && b.len() > 0 && c.len() > 0 {
        if a[0] as u32 == b[0] as u32 && b[0] as u32 == c[0] as u32 {
            lemma_seq_char_le_trans(a.drop_first(), b.drop_first(), c.drop_first());
        }
    }
}

/// A total order on the views of a type, together with an executable
/// comparison.  The listing and catalog types implement it so that one
/// verified sorting routine serves them all.
pub trait TotalOrder: View + Sized {
    /// "Less than or equal" on views.
    spec fn le(a: Self::V, b: Self::V) -> bool;

    proof fn lemma_le_total(a: Self::V, b: Self::V)
        ensures
            Self::le(a, b) || Self::le(b, a),
    ;

    proof fn lemma_le_antisym(a: Self::V, b: Self::V)
        requires
            Self::le(a, b),
            Self::le(b, a),
        ensures
            a == b,
    ;

    proof fn lemma_le_trans(a: Self::V, b: Self::V, c: Self::V)
        requires
            Self::le(a, b),
            Self::le(b, c),
        ensures
            Self::le(a, c),
    ;

    /// Decides `le` on the underlying values.
    fn le_exec(&self, other: &Self) -> (r: bool)
        ensures
            r == Self::le(self@, other@),
    ;
}

impl TotalOrder for String {
    open spec fn le(a: Seq<char>, b: Seq<char>) -> bool {
        seq_char_le(a, b)
    }

    proof fn lemma_le_total(a: Seq<char>, b: Seq<char>) {
        lemma_seq_char_le_total(a, b);
    }

    proof fn lemma_le_antisym(a: Seq<char>, b: Seq<char>) {
        lemma_seq_char_le_antisym(a, b);
    }

    proof fn lemma_le_trans(a: Seq<char>, b: Seq<char>, c: Seq<char>) {
        lemma_seq_char_le_trans(a, b, c);
    }

    fn le_exec(&self, other: &Self) -> (r: bool) {
        crate::text::str_le(self.as_str(), other.as_str())
    }
}

/// The views of the elements of `s`, in order.
pub open spec fn view_seq<T: View>(s: Seq<T>) -> Seq<T::V> {
    s.map_values(|t: T| t@)
}

/// Strictly ascending: every earlier element is below, and distinct from,
/// every later one.
pub open spec fn strictly_sorted<T: TotalOrder>(vs: Seq<T::V>) -> bool {
    forall|i: int, j: int|
        #![trigger vs[i], vs[j]]
        0 <= i < j < vs.len() ==> T::le(vs[i], vs[j]) && vs[i] != vs[j]
}

/// `a` and `b` hold exactly the same values, duplicates and order aside.
pub open spec fn same_values<V>(a: Seq<V>, b: Seq<V>) -> bool {
    forall|v: V| a.contains(v) <==> b.contains(v)
}

/// Sorts the input into a strictly ascending sequence, dropping duplicates.
pub fn sort_dedup<T: TotalOrder>(input: Vec<T>) -> (r: Vec<T>)
    ensures
        strictly_sorted::<T>(view_seq(r@)),
        same_values(view_seq(r@), view_seq(input@)),
{
    let mut rest = input;
    let mut out: Vec<T> = Vec::new();
    let ghost all = view_seq(rest@);
    proof {
        assert(view_seq(rest@) =~= all);
        assert(view_seq(out@) =~= Seq::<T::V>::empty());
    }
    while rest.len() > 0
        invariant
            strictly_sorted::<T>(view_seq(out@)),
            same_values(view_seq(out@) + view_seq(rest@), all),
        decreases rest.len(),
    {
        let ghost prev_out = view_seq(out@);
        let ghost prev_rest = view_seq(rest@);
        let x = rest.pop().unwrap();
        proof {
            assert(prev_rest =~= view_seq(rest@).push(x@));
        }
        insert_sorted(&mut out, x);
        proof {
            assert forall|v: T::V| (view_seq(out@) + view_seq(rest@)).contains(v) <==> all.contains(
                v,
            ) by {
                assert((prev_out + prev_rest).contains(v) <==> all.contains(v));
                lemma_concat_contains(prev_out, prev_rest, v);
                lemma_concat_contains(view_seq(out@), view_seq(rest@), v);
                lemma_push_contains(prev_out, x@, v);
                lemma_push_contains(view_seq(rest@), x@, v);
                assert(view_seq(out@).contains(v) <==> prev_out.push(x@).contains(v));
                assert(prev_rest.contains(v) <==> (view_seq(rest@).contains(v) || v == x@));
            }
        }
    }
    proof {
        assert(view_seq(rest@) =~= Seq::<T::V>::empty());
        assert forall|v: T::V| view_seq(out@).contains(v) <==> all.contains(v) by {
            lemma_concat_contains(view_seq(out@), view_seq(rest@), v);
        }
    }
    out
}

pub proof fn lemma_push_contains<V>(s: Seq<V>, x: V, v: V)
    ensures
        s.push(x).contains(v) <==> s.contains(v) || v == x,
{
    if s.push(x).contains(v) {
        let i = choose|i: int| 0 <= i < s.push(x).len() && s.push(x)[i] == v;
        if i < s.len() {
            assert(s[i] == v);
        }
    }
    if s.contains(v) {
        let i = choose|i: int| 0 <= i < s.len() && s[i] == v;
        assert(s.push(x)[i] == v);
    }
    assert(s.push(x)[s.len() as int] == x);
}

proof fn lemma_concat_contains<V>(a: Seq<V>, b: Seq<V>, v: V)
    ensures
        (a + b).contains(v) <==> a.contains(v) || b.contains(v),
{
    if a.contains(v) {
        let i = choose|i: int| 0 <= i < a.len() && a[i] == v;
        assert((a + b)[i] == v);
    }
    if b.contains(v) {
        let i = choose|i: int| 0 <= i < b.len() && b[i] == v;
        assert((a + b)[a.len() + i] == v);
    }
    if (a + b).contains(v) {
        let i = choose|i: int| 0 <= i < (a + b).len() && (a + b)[i] == v;
        if i < a.len() {
            assert(a[i] == v);
        } else {
            assert(b[i - a.len()] == v);
        }
    }
}

/// Inserts `x` into the strictly sorted `out`, keeping it strictly sorted;
/// a value already present is dropped.
fn insert_sorted<T: TotalOrder>(out: &mut Vec<T>, x: T)
    requires
        strictly_sorted::<T>(view_seq(old(out)@)),
    ensures
        strictly_sorted::<T>(view_seq(final(out)@)),
        same_values(view_seq(final(out)@), view_seq(old(out)@).push(x@)),
{
    let ghost orig = view_seq(old(out)@);
    let mut pos: usize = 0;
    while pos < out.len() && out[pos].le_exec(&x) && !x.le_exec(&out[pos])
        invariant
            0 <= pos <= out.len(),
            strictly_sorted::<T>(view_seq(out@)),
            view_seq(out@) == orig,
            forall|j: int| 0 <= j < pos ==> #[trigger] T::le(orig[j], x@) && orig[j] != x@,
        decreases out.len() - pos,
    {
        proof {
            if orig[pos as int] == x@ {
                assert(T::le(x@, orig[pos as int]));
            }
        }
        pos += 1;
    }
    if pos < out.len() && out[pos].le_exec(&x) {
        // both directions hold, so the value is already there
        proof {
            T::lemma_le_antisym(orig[pos as int], x@);
            assert(orig[pos as int] == x@);
            assert(orig.contains(x@));
            assert forall|v: T::V| orig.contains(v) <==> orig.push(x@).contains(v) by {
                lemma_push_contains(orig, x@, v);
            }
        }
        return ;
    }
    proof {
        if pos < out.len() {
            T::lemma_le_total(orig[pos as int], x@);
            assert(T::le(x@, orig[pos as int]));
        }
    }
    out.insert(pos, x);
    proof {
        let ghost now = view_seq(out@);
        assert(now =~= orig.insert(pos as int, x@));
        assert forall|i: int, j: int| 0 <= i < j < now.len() implies #[trigger] T::le(
            now[i],
            now[j],
        ) && now[i] != now[j] by {
            lemma_insert_step::<T>(orig, pos as int, x@, i, j);
        }
        assert forall|v: T::V| now.contains(v) <==> orig.push(x@).contains(v) by {
            lemma_insert_push_contains(orig, pos as int, x@, v);
        }
    }
}

/// One pair of positions of `vs.insert(pos, x)` is ordered, given the
/// ordering facts gathered before the insertion.
proof fn lemma_insert_step<T: TotalOrder>(vs: Seq<T::V>, pos: int, x: T::V, i: int, j: int)
    requires
        strictly_sorted::<T>(vs),
        0 <= pos <= vs.len(),
        forall|k: int| 0 <= k < pos ==> T::le(#[trigger] vs[k], x) && vs[k] != x,
        pos < vs.len() ==> T::le(x, vs[pos]) && x != vs[pos],
        0 <= i < j < vs.insert(pos, x).len(),
    ensures
        T::le(vs.insert(pos, x)[i], vs.insert(pos, x)[j]),
        vs.insert(pos, x)[i] != vs.insert(pos, x)[j],
{
    let s = vs.insert(pos, x);
    if i == pos {
        // s[i] == x, s[j] == vs[j - 1] with j - 1 >= pos
        assert(s[j] == vs[j - 1]);
        if j - 1 > pos {
            assert(T::le(vs[pos], vs[j - 1]) && vs[pos] != vs[j - 1]);
            T::lemma_le_trans(x, vs[pos], vs[j - 1]);
            if x == vs[j - 1] {
                T::lemma_le_antisym(vs[pos], vs[j - 1]);
            }
        }
    } else if j == pos {
        // s[j] == x, s[i] == vs[i] with i < pos
        assert(s[i] == vs[i]);
        assert(T::le(vs[i], x) && vs[i] != x);
    } else if i < pos && j > pos {
        assert(s[i] == vs[i] && s[j] == vs[j - 1]);
        assert(T::le(vs[i], x) && vs[i] != x);
        if j - 1 > pos {
            assert(T::le(vs[pos], vs[j - 1]));
            T::lemma_le_trans(x, vs[pos], vs[j - 1]);
        }
        T::lemma_le_trans(vs[i], x, vs[j - 1]);
        if vs[i] == vs[j - 1] {
            T::lemma_le_antisym(x, vs[j - 1]);
        }
    } else if j < pos {
        assert(s[i] == vs[i] && s[j] == vs[j]);
        assert(T::le(vs[i], vs[j]) && vs[i] != vs[j]);
    } else {
        assert(i > pos);
        assert(s[i] == vs[i - 1] && s[j] == vs[j - 1]);
        assert(T::le(vs[i - 1], vs[j - 1]) && vs[i - 1] != vs[j - 1]);
    }
}

proof fn lemma_insert_push_contains<V>(vs: Seq<V>, pos: int, x: V, v: V)
    requires
        0 <= pos <= vs.len(),
    ensures
        vs.insert(pos, x).contains(v) <==> vs.push(x).contains(v),
{
    let a = vs.insert(pos, x);
    let b = vs.push(x);
    if a.contains(v) {
        let i = choose|i: int| 0 <= i < a.len() && a[i] == v;
        if i == pos {
            assert(b[vs.len() as int] == v);
        } else if i < pos {
            assert(b[i] == v);
        } else {
            assert(b[i - 1] == v);
        }
    }
    if b.contains(v) {
        let i = choose|i: int| 0 <= i < b.len() && b[i] == v;
        if i == vs.len() {
            assert(a[pos] == v);
        } else if i < pos {
            assert(a[i] == v);
        } else {
            assert(a[i + 1] == v);
        }
    }
}

} // verus!
