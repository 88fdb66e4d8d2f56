//! The order of names and paths: lexicographic by code point, and over
//! paths component by component.
use vstd::prelude::*;

verus! {

/// Three-way comparison of two strings by code point: -1, 0 or 1.
pub open spec fn cmp_chars(a: Seq<char>, b: Seq<char>) -> int
    decreases a.len(),
{
    if a.len() == 0 && b.len() == 0 {
        0
    } else if a.len() == 0 {
        -1
    } else if b.len() == 0 {
        1
    } else if (a[0] as u32) < (b[0] as u32) {
        -1
    } else if (a[0] as u32) > (b[0] as u32) {
        1
    } else {
        cmp_chars(a.drop_first(), b.drop_first())
    }
}

/// Three-way comparison of two paths, component by component.
pub open spec fn cmp_path(a: Seq<Seq<char>>, b: Seq<Seq<char>>) -> int
    decreases a.len(),
{
    if a.len() == 0 && b.len() == 0 {
        0
    } else if a.len() == 0 {
        -1
    } else if b.len() == 0 {
        1
    } else if cmp_chars(a[0], b[0]) != 0 {
        cmp_chars(a[0], b[0])
    } else {
        cmp_path(a.drop_first(), b.drop_first())
    }
}

pub proof fn lemma_cmp_chars(a: Seq<char>, b: Seq<char>)
    ensures
        cmp_chars(a, b) == -cmp_chars(b, a),
        cmp_chars(a, b) == 0 <==> a == b,
        -1 <= cmp_chars(a, b) <= 1,
    decreases a.len(),
{
    if a.len() > 0 && b.len() > 0 {
        lemma_cmp_chars(a.drop_first(), b.drop_first());
        if (a[0] as u32) == (b[0] as u32) {
            vstd::utf8::char_u32_cast(a[0], a[0] as u32);
            vstd::utf8::char_u32_cast(b[0], b[0] as u32);
            assert(a[0] == b[0]);
            if a.drop_first() == b.drop_first() {
                assert(a =~= seq![a[0]] + a.drop_first());
                assert(b =~= seq![b[0]] + b.drop_first());
            }
        }
        if a == b {
            assert(a.drop_first() == b.drop_first());
        }
    } else if a.len() == 0 && b.len() == 0 {
        assert(a =~= b);
    }
}

pub proof fn lemma_cmp_chars_trans(a: Seq<char>, b: Seq<char>, c: Seq<char>)
    requires
        cmp_chars(a, b) == -1,
        cmp_chars(b, c) == -1,
    ensures
        cmp_chars(a, c) == -1,
    decreases a.len(),
{
    if a.len() > 0 && b.len() > 0 && c.len() > 0 {
        if (a[0] as u32) == (b[0] as u32) && (b[0] as u32) == (c[0] as u32) {
            lemma_cmp_chars_trans(a.drop_first(), b.drop_first(), c.drop_first());
        }
    }
}

pub proof fn lemma_cmp_path(a: Seq<Seq<char>>, b: Seq<Seq<char>>)
    ensures
        cmp_path(a, b) == -cmp_path(b, a),
        cmp_path(a, b) == 0 <==> a == b,
        -1 <= cmp_path(a, b) <= 1,
    decreases a.len(),
{
    if a.len() > 0 && b.len() > 0 {
        lemma_cmp_chars(a[0], b[0]);
        lemma_cmp_path(a.drop_first(), b.drop_first());
        if a[0] == b[0] && a.drop_first() == b.drop_first() {
            assert(a =~= seq![a[0]] + a.drop_first());
            assert(b =~= seq![b[0]] + b.drop_first());
        }
        if a == b {
            assert(a.drop_first() == b.drop_first());
        }
    } else if a.len() == 0 && b.len() == 0 {
        assert(a =~= b);
    }
}

pub proof fn lemma_cmp_path_trans(a: Seq<Seq<char>>, b: Seq<Seq<char>>, c: Seq<Seq<char>>)
    requires
        cmp_path(a, b) == -1,
        cmp_path(b, c) == -1,
    ensures
        cmp_path(a, c) == -1,
    decreases a.len(),
{
    if a.len() > 0 && b.len() > 0 && c.len() > 0 {
        lemma_cmp_chars(a[0], b[0]);
        lemma_cmp_chars(b[0], c[0]);
        lemma_cmp_chars(a[0], c[0]);
        if cmp_chars(a[0], b[0]) == -1 && cmp_chars(b[0], c[0]) == -1 {
            lemma_cmp_chars_trans(a[0], b[0], c[0]);
        } else if cmp_chars(a[0], b[0]) == 0 && cmp_chars(b[0], c[0]) == 0 {
            lemma_cmp_path_trans(a.drop_first(), b.drop_first(), c.drop_first());
        }
    }
}

pub fn compare_str(a: &String, b: &String) -> (r: i8)
    ensures
        r as int == cmp_chars(a@, b@),
{
    let la = a.as_str().unicode_len();
    let lb = b.as_str().unicode_len();
    let mut i: usize = 0;
    assert(a@.skip(0) =~= a@);
    assert(b@.skip(0) =~= b@);
    while i < la && i < lb
        invariant
            la == a@.len(),
            lb == b@.len(),
            i <= la,
            i <= lb,
            cmp_chars(a@, b@) == cmp_chars(a@.skip(i as int), b@.skip(i as int)),
        decreases la - i,
    {
        let ca = a.as_str().get_char(i);
        let cb = b.as_str().get_char(i);
        let ghost sa = a@.skip(i as int);
        let ghost sb = b@.skip(i as int);
        assert(sa[0] == ca);
        assert(sb[0] == cb);
        if (ca as u32) < (cb as u32) {
            return -1;
        }
        if (ca as u32) > (cb as u32) {
            return 1;
        }
        assert(sa.drop_first() =~= a@.skip(i + 1));
        assert(sb.drop_first() =~= b@.skip(i + 1));
        i += 1;
    }
    if la == lb {
        0
    } else if i == la {
        -1
    } else {
        1
    }
}

pub fn compare_path(a: &Vec<String>, b: &Vec<String>) -> (r: i8)
    ensures
        r as int == cmp_path(path_view(a@), path_view(b@)),
{
    let mut i: usize = 0;
    assert(path_view(a@).skip(0) =~= path_view(a@));
    assert(path_view(b@).skip(0) =~= path_view(b@));
    while i < a.len() && i < b.len()
        invariant
            i <= a@.len(),
            i <= b@.len(),
            cmp_path(path_view(a@), path_view(b@)) == cmp_path(
                path_view(a@).skip(i as int),
                path_view(b@).skip(i as int),
            ),
        decreases a@.len() - i,
    {
        let ghost sa = path_view(a@).skip(i as int);
        let ghost sb = path_view(b@).skip(i as int);
        assert(sa[0] == a@[i as int]@);
        assert(sb[0] == b@[i as int]@);
        let c = compare_str(&a[i], &b[i]);
        if c != 0 {
            return c;
        }
        assert(sa.drop_first() =~= path_view(a@).skip(i + 1));
        assert(sb.drop_first() =~= path_view(b@).skip(i + 1));
        i += 1;
    }
    if a.len() == b.len() {
        0
    } else if i == a.len() {
        -1
    } else {
        1
    }
}

pub open spec fn path_view(p: Seq<String>) -> Seq<Seq<char>> {
    p.map_values(|s: String| s@)
}

} // verus!

verus! {

/// A copy of a path.
pub fn clone_path(p: &Vec<String>) -> (r: Vec<String>)
    ensures
        r@ == p@,
{
    let mut r: Vec<String> = Vec::new();
    let mut i: usize = 0;
    while i < p.len()
        invariant
            i <= p@.len(),
            r@ == p@.subrange(0, i as int),
        decreases p@.len() - i,
    {
        r.push(p[i].clone());
        assert(r@ =~= p@.subrange(0, i + 1));
        i += 1;
    }
    assert(p@.subrange(0, i as int) =~= p@);
    r
}

} // verus!
