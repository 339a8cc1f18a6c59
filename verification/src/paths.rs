//! Unix path handling on strings: the final component of a path, joining
//! a relative name onto a directory, and ordering the entries of a
//! directory listing.

use vstd::prelude::*;
use vstd::relations::sorted_by;
use crate::text::{chars_of, lemma_lex_le_total_order, lex_le, lex_le_chars, string_of, strs_view};

verus! {

/// The characters of `s` after its last `/` (all of `s` when it has none).
pub open spec fn last_segment(s: Seq<char>) -> Seq<char>
    decreases s.len(),
{
    if s.len() == 0 || s.last() == '/' {
        Seq::empty()
    } else {
        last_segment(s.drop_last()).push(s.last())
    }
}

/// `Path::file_name` on Unix: the last component of the path when it is a
/// normal name. Trailing slashes and `.` components are skipped; a path
/// ending in `..`, the root, or the current directory has none.
pub open spec fn file_name_of(s: Seq<char>) -> Option<Seq<char>>
    decreases s.len(),
{
    if s.len() == 0 {
        None
    } else if s.last() == '/' {
        file_name_of(s.drop_last())
    } else if last_segment(s) == seq!['.'] {
        file_name_of(s.drop_last())
    } else if last_segment(s) == seq!['.', '.'] {
        None
    } else {
        Some(last_segment(s))
    }
}

proof fn lemma_last_segment(s: Seq<char>, st: int)
    requires
        0 <= st <= s.len(),
        st == 0 || s[st - 1] == '/',
        forall|j: int| st <= j < s.len() ==> s[j] != '/',
    ensures
        last_segment(s) == s.skip(st),
    decreases s.len(),
{
    if s.len() == 0 {
        assert(s.skip(st) =~= Seq::<char>::empty());
    } else if s.last() == '/' {
        assert(st == s.len());
        assert(s.skip(st) =~= Seq::<char>::empty());
    } else {
        let t = s.drop_last();
        lemma_last_segment(t, st);
        assert(s.skip(st) =~= t.skip(st).push(s.last()));
    }
}

fn eq_dot(s: &Vec<char>, a: usize, b: usize) -> (r: bool)
    requires
        a <= b <= s.len(),
    ensures
        r == (s@.subrange(a as int, b as int) == seq!['.']),
{
    if b - a == 1 && s[a] == '.' {
        assert(s@.subrange(a as int, b as int) =~= seq!['.']);
        true
    } else {
        let ghost d = seq!['.'];
        assert(d.len() == 1 && d[0] == '.');
        if b - a == 1 {
            assert(s@.subrange(a as int, b as int)[0] == s@[a as int]);
        }
        false
    }
}

fn eq_dotdot(s: &Vec<char>, a: usize, b: usize) -> (r: bool)
    requires
        a <= b <= s.len(),
    ensures
        r == (s@.subrange(a as int, b as int) == seq!['.', '.']),
{
    if b - a == 2 && s[a] == '.' && s[a + 1] == '.' {
        assert(s@.subrange(a as int, b as int) =~= seq!['.', '.']);
        true
    } else {
        let ghost d = seq!['.', '.'];
        assert(d.len() == 2 && d[0] == '.' && d[1] == '.');
        if b - a == 2 {
            assert(s@.subrange(a as int, b as int)[0] == s@[a as int]);
            assert(s@.subrange(a as int, b as int)[1] == s@[a + 1]);
        }
        false
    }
}

/// The last component of a path when it is a normal name
/// (`Path::file_name`).
pub fn file_name(path: &str) -> (r: Option<String>)
    ensures
        match r {
            Some(n) => file_name_of(path@) == Some(n@),
            None => file_name_of(path@) is None,
        },
{
    let s = chars_of(path);
    let mut end: usize = s.len();
    assert(s@.take(end as int) =~= s@);
    loop
        invariant
            end <= s.len(),
            file_name_of(s@) == file_name_of(s@.take(end as int)),
            s@ == path@,
        decreases end,
    {
        let ghost end0 = end;
        while end > 0 && s[end - 1] == '/'
            invariant
                end <= end0 <= s.len(),
                file_name_of(s@) == file_name_of(s@.take(end as int)),
            decreases end,
        {
            assert(s@.take(end as int).drop_last() =~= s@.take(end - 1));
            end = end - 1;
        }
        if end == 0 {
            return None;
        }
        let mut st: usize = end;
        while st > 0 && s[st - 1] != '/'
            invariant
                st <= end <= s.len(),
                end <= end0,
                forall|j: int| st <= j < end ==> s@[j] != '/',
            decreases st,
        {
            st = st - 1;
        }
        let ghost t = s@.take(end as int);
        proof {
            lemma_last_segment(t, st as int);
            assert(t.skip(st as int) =~= s@.subrange(st as int, end as int));
            assert(t.last() == s@[end - 1]);
        }
        if eq_dot(&s, st, end) {
            assert(t.drop_last() =~= s@.take(end - 1));
            end = end - 1;
        } else if eq_dotdot(&s, st, end) {
            return None;
        } else {
            let mut seg: Vec<char> = Vec::new();
            let mut k: usize = st;
            while k < end
                invariant
                    st <= k <= end <= s.len(),
                    seg@ == s@.subrange(st as int, k as int),
                decreases end - k,
            {
                seg.push(s[k]);
                k = k + 1;
                assert(seg@ =~= s@.subrange(st as int, k as int));
            }
            return Some(string_of(&seg));
        }
    }
}

/// `Path::join` on Unix: a name starting with `/` replaces the base;
/// otherwise it is appended, with a `/` put between unless the base is
/// empty or already ends with one.
pub open spec fn join_of(base: Seq<char>, name: Seq<char>) -> Seq<char> {
    if name.len() > 0 && name[0] == '/' {
        name
    } else if base.len() > 0 && base.last() != '/' {
        base + seq!['/'] + name
    } else {
        base + name
    }
}

/// Joins `name` onto `base` (`Path::join`).
pub fn join_path(base: &str, name: &str) -> (r: String)
    ensures
        r@ == join_of(base@, name@),
{
    let b = chars_of(base);
    let n = chars_of(name);
    if n.len() > 0 && n[0] == '/' {
        return string_of(&n);
    }
    let mut out = b;
    if out.len() > 0 && out[out.len() - 1] != '/' {
        out.push('/');
    }
    let ghost o = out@;
    let mut i: usize = 0;
    while i < n.len()
        invariant
            i <= n.len(),
            out@ == o + n@.take(i as int),
        decreases n.len() - i,
    {
        out.push(n[i]);
        i = i + 1;
        assert(out@ =~= o + n@.take(i as int));
    }
    assert(n@.take(i as int) =~= n@);
    string_of(&out)
}

/// `lex_le` as a relation.
pub open spec fn lex_order() -> spec_fn(Seq<char>, Seq<char>) -> bool {
    |a: Seq<char>, b: Seq<char>| lex_le(a, b)
}

/// Sorts names in ascending order (`Vec::sort` on strings).
pub fn sort_names(v: Vec<String>) -> (r: Vec<String>)
    ensures
        sorted_by(strs_view(r@), lex_order()),
        strs_view(r@).to_multiset() == strs_view(v@).to_multiset(),
{
    proof {
        lemma_lex_le_total_order();
    }
    let ghost orig = strs_view(v@);
    let mut rem = v;
    let mut r: Vec<String> = Vec::new();
    let mut keys: Vec<Vec<char>> = Vec::new();
    let ghost mut i: int = 0;
    proof {
        assert(orig.take(0) =~= Seq::<Seq<char>>::empty());
        assert(strs_view(r@) =~= Seq::<Seq<char>>::empty());
        assert(strs_view(rem@) =~= orig.skip(0));
    }
    while rem.len() > 0
        invariant
            0 <= i <= orig.len(),
            strs_view(rem@) == orig.skip(i),
            keys@.len() == r@.len(),
            forall|j: int| 0 <= j < r@.len() ==> (#[trigger] keys@[j])@ == r@[j]@,
            sorted_by(strs_view(r@), lex_order()),
            strs_view(r@).to_multiset() == orig.take(i).to_multiset(),
            forall|a: Seq<char>, b: Seq<char>, c: Seq<char>|
                #[trigger] lex_le(a, b) && #[trigger] lex_le(b, c) ==> lex_le(a, c),
            forall|a: Seq<char>, b: Seq<char>| #[trigger] lex_le(a, b) || #[trigger] lex_le(b, a),
        decreases rem.len(),
    {
        let ghost rv = strs_view(r@);
        let ghost old_rem = rem@;
        assert(strs_view(old_rem).len() == old_rem.len());
        assert(strs_view(old_rem)[0] == old_rem[0]@);
        assert(orig.skip(i)[0] == orig[i]);
        let x = rem.remove(0);
        let xk = chars_of(x.as_str());
        let ghost xv = x@;
        let mut p: usize = r.len();
        while p > 0 && !lex_le_chars(&keys[p - 1], &xk)
            invariant
                p <= r.len(),
                keys@.len() == r@.len(),
                forall|j: int| 0 <= j < r@.len() ==> (#[trigger] keys@[j])@ == r@[j]@,
                rv == strs_view(r@),
                xk@ == xv,
                forall|j: int| p <= j < r.len() ==> !lex_le(#[trigger] rv[j], xv),
            decreases p,
        {
            assert(rv[p - 1] == r@[p - 1]@);
            p = p - 1;
        }
        let ghost old_keys = keys@;
        r.insert(p, x);
        keys.insert(p, xk);
        proof {
            let nv = strs_view(r@);
            let le = lex_order();
            assert(nv =~= rv.insert(p as int, xv));
            vstd::seq_lib::to_multiset_insert(rv, p as int, xv);
            assert(orig.take(i + 1) =~= orig.take(i).push(xv));
            vstd::seq_lib::to_multiset_build(orig.take(i), xv);
            assert forall|j: int| 0 <= j < r@.len() implies (#[trigger] keys@[j])@ == r@[j]@ by {
                if j < p {
                } else if j > p {
                    assert(keys@[j] == old_keys[j - 1]);
                }
            }
            assert forall|a: int, b: int| 0 <= a < b < nv.len() implies #[trigger] le(
                nv[a],
                nv[b],
            ) by {
                if a < p && b > p {
                    assert(nv[a] == rv[a] && nv[b] == rv[b - 1]);
                    assert(le(rv[a], rv[b - 1]));
                } else if a < p && b == p {
                    assert(rv[p - 1] == r@[p - 1]@);
                    assert(le(rv[p - 1], xv));
                    if a < p - 1 {
                        assert(le(rv[a], rv[p - 1]));
                    }
                } else if a < p {
                    assert(le(rv[a], rv[b]));
                } else if a > p {
                    assert(le(rv[a - 1], rv[b - 1]));
                } else {
                    assert(nv[a] == xv && nv[b] == rv[b - 1]);
                    assert(!lex_le(rv[b - 1], xv));
                }
            }
            assert forall|j: int| 0 <= j < rem@.len() implies #[trigger] strs_view(rem@)[j]
                == orig.skip(i + 1)[j] by {
                assert(rem@[j] == old_rem[j + 1]);
                assert(strs_view(old_rem)[j + 1] == old_rem[j + 1]@);
            }
            assert(strs_view(rem@) =~= orig.skip(i + 1));
            i = i + 1;
        }
    }
    assert(orig.take(i) =~= orig);
    r
}

/// The paths of the entries named `names` in directory `dir`, in the
/// order of `Path`'s `Ord` (for entries of one directory: by name).
pub fn sorted_entry_paths(dir: &str, names: Vec<String>) -> (r: Vec<String>)
    ensures
        exists|sorted: Seq<Seq<char>>|
            {
                &&& sorted_by(sorted, lex_order())
                &&& sorted.to_multiset() == strs_view(names@).to_multiset()
                &&& strs_view(r@) == sorted.map_values(|n: Seq<char>| join_of(dir@, n))
            },
{
    let sorted = sort_names(names);
    let mut r: Vec<String> = Vec::new();
    let mut i: usize = 0;
    let ghost sv = strs_view(sorted@);
    while i < sorted.len()
        invariant
            i <= sorted.len(),
            sv == strs_view(sorted@),
            strs_view(r@) == sv.take(i as int).map_values(|n: Seq<char>| join_of(dir@, n)),
        decreases sorted.len() - i,
    {
        let p = join_path(dir, sorted[i].as_str());
        assert(sv[i as int] == sorted@[i as int]@);
        let ghost before = strs_view(r@);
        r.push(p);
        i = i + 1;
        assert(strs_view(r@) =~= before.push(p@));
        assert(strs_view(r@) =~= sv.take(i as int).map_values(|n: Seq<char>| join_of(dir@, n)));
    }
    assert(sv.take(i as int) =~= sv);
    r
}


/// Whether `n` is a normal file name: not empty, without `/`, and neither
/// `.` nor `..`.
pub open spec fn is_plain_name(n: Seq<char>) -> bool {
    &&& n.len() > 0
    &&& forall|i: int| 0 <= i < n.len() ==> n[i] != '/'
    &&& n != seq!['.']
    &&& n != seq!['.', '.']
}

proof fn lemma_last_segment_after_slash(a: Seq<char>, n: Seq<char>)
    requires
        a.len() == 0 || a.last() == '/',
        forall|i: int| 0 <= i < n.len() ==> n[i] != '/',
    ensures
        last_segment(a + n) == n,
{
    let s = a + n;
    assert forall|j: int| a.len() <= j < s.len() implies s[j] != '/' by {
        assert(s[j] == n[j - a.len()]);
    }
    if a.len() > 0 {
        assert(s[a.len() - 1] == a.last());
    }
    lemma_last_segment(s, a.len() as int);
    assert(s.skip(a.len() as int) =~= n);
}

/// The entries of a directory listing are shown under their own names:
/// the file name of a plain name joined onto any directory is that name.
pub proof fn law_file_name_of_join(dir: Seq<char>, name: Seq<char>)
    requires
        is_plain_name(name),
    ensures
        file_name_of(join_of(dir, name)) == Some(name),
{
    let j = join_of(dir, name);
    let a = if dir.len() > 0 && dir.last() != '/' {
        dir + seq!['/']
    } else {
        dir
    };
    assert(j =~= a + name);
    lemma_last_segment_after_slash(a, name);
    assert(j.last() == name.last());
}

/// Sorting a listing that is already in order leaves it unchanged: any
/// ordered arrangement of the same names is that listing.
pub proof fn law_sorted_listing_unchanged(s: Seq<Seq<char>>, r: Seq<Seq<char>>)
    requires
        sorted_by(s, lex_order()),
        sorted_by(r, lex_order()),
        r.to_multiset() == s.to_multiset(),
    ensures
        r == s,
{
    lemma_lex_le_total_order();
    assert(vstd::relations::total_ordering(lex_order()));
    vstd::seq_lib::lemma_sorted_unique(r, s, lex_order());
}

} // verus!
