//! String building blocks with exact specifications over `Seq<char>`.

use vstd::prelude::*;
use vstd::string::*;

verus! {

pub open spec fn min_int(a: int, b: int) -> int {
    if a < b {
        a
    } else {
        b
    }
}

pub open spec fn stars() -> Seq<char> {
    seq!['*', '*']
}

/// `t` with the characters at positions `[offset, offset + length)`, clipped to
/// the end of `t`, wrapped in `**` markers.
pub open spec fn bold_range(t: Seq<char>, offset: int, length: int) -> Seq<char> {
    let o = min_int(offset, t.len() as int);
    let e = min_int(offset + length, t.len() as int);
    t.subrange(0, o) + stars() + t.subrange(o, e) + stars() + t.subrange(e, t.len() as int)
}

/// A fresh `String` holding the characters `[from, to)` of `s`.
pub fn substring(s: &str, from: usize, to: usize) -> (r: String)
    requires
        from <= to <= s@.len(),
    ensures
        r@ == s@.subrange(from as int, to as int),
{
    String::from_str(s.substring_char(from, to))
}

/// Wraps the characters `[offset, offset + length)` of `text` in bold markers.
pub fn apply_bold(text: &String, offset: u32, length: u32) -> (r: String)
    ensures
        r@ == bold_range(text@, offset as int, length as int),
{
    let n = text.as_str().unicode_len();
    let o: usize = if (offset as usize) < n { offset as usize } else { n };
    let end: u64 = offset as u64 + length as u64;
    let e: usize = if end < n as u64 { end as usize } else { n };
    let mut r = substring(text.as_str(), 0, o);
    r.append("**");
    r.append(text.as_str().substring_char(o, e));
    r.append("**");
    r.append(text.as_str().substring_char(e, n));
    proof {
        reveal_strlit("**");
        assert("**"@ =~= stars());
    }
    assert(r@ =~= bold_range(text@, offset as int, length as int));
    r
}

/// Applying a style never moves the characters before its start offset.
pub proof fn lemma_bold_keeps_prefix(t: Seq<char>, offset: int, length: int)
    requires
        0 <= offset,
        0 <= length,
    ensures
        bold_range(t, offset, length).subrange(0, min_int(offset, t.len() as int)) =~= t.subrange(
            0,
            min_int(offset, t.len() as int),
        ),
{
}

/// Position of the last `c` in `s`, or -1.
pub open spec fn last_index_of(s: Seq<char>, c: char) -> int
    decreases s.len(),
{
    if s.len() == 0 {
        -1
    } else if s.last() == c {
        s.len() - 1
    } else {
        last_index_of(s.drop_last(), c)
    }
}

/// Position of the first `c` in `s`, or -1.
pub open spec fn first_index_of(s: Seq<char>, c: char) -> int
    decreases s.len(),
{
    if s.len() == 0 {
        -1
    } else if s[0] == c {
        0
    } else if first_index_of(s.drop_first(), c) < 0 {
        -1
    } else {
        first_index_of(s.drop_first(), c) + 1
    }
}

/// The part of `s` after its last `c`; all of `s` when there is none.
pub open spec fn after_last(s: Seq<char>, c: char) -> Seq<char> {
    s.subrange(last_index_of(s, c) + 1, s.len() as int)
}

/// The part of `s` before its first `c`; all of `s` when there is none.
pub open spec fn before_first(s: Seq<char>, c: char) -> Seq<char> {
    if first_index_of(s, c) < 0 {
        s
    } else {
        s.subrange(0, first_index_of(s, c))
    }
}

pub proof fn lemma_last_index_bounds(s: Seq<char>, c: char)
    ensures
        -1 <= last_index_of(s, c) < s.len(),
        last_index_of(s, c) >= 0 ==> s[last_index_of(s, c)] == c,
    decreases s.len(),
{
    if s.len() > 0 && s.last() != c {
        lemma_last_index_bounds(s.drop_last(), c);
    }
}

pub proof fn lemma_first_index_bounds(s: Seq<char>, c: char)
    ensures
        -1 <= first_index_of(s, c) < s.len(),
    decreases s.len(),
{
    if s.len() > 0 && s[0] != c {
        lemma_first_index_bounds(s.drop_first(), c);
    }
}

proof fn lemma_last_index_take(s: Seq<char>, c: char, i: int)
    requires
        0 <= i <= s.len(),
        forall|k: int| i <= k < s.len() ==> s[k] != c,
    ensures
        last_index_of(s, c) == last_index_of(s.take(i), c),
    decreases s.len() - i,
{
    if i < s.len() {
        assert(s.drop_last().take(i) =~= s.take(i));
        lemma_last_index_take(s.drop_last(), c, i);
    } else {
        assert(s.take(i) =~= s);
    }
}

proof fn lemma_first_index_skip(s: Seq<char>, c: char, i: int)
    requires
        0 <= i <= s.len(),
        forall|k: int| 0 <= k < i ==> s[k] != c,
    ensures
        first_index_of(s, c) == if first_index_of(s.skip(i), c) < 0 {
            -1
        } else {
            first_index_of(s.skip(i), c) + i
        },
    decreases i,
{
    if i > 0 {
        assert(s.drop_first().skip(i - 1) =~= s.skip(i));
        lemma_first_index_skip(s.drop_first(), c, i - 1);
    } else {
        assert(s.skip(0) =~= s);
    }
}

/// Position of the last `c` in `s`, if any.
pub fn find_last(s: &str, c: char) -> (r: Option<usize>)
    ensures
        match r {
            Some(i) => i as int == last_index_of(s@, c),
            None => last_index_of(s@, c) == -1,
        },
{
    let n = s.unicode_len();
    let mut i = n;
    while i > 0 && s.get_char(i - 1) != c
        invariant
            0 <= i <= n,
            n == s@.len(),
            forall|k: int| i <= k < n ==> s@[k] != c,
        decreases i,
    {
        i = i - 1;
    }
    proof {
        lemma_last_index_take(s@, c, i as int);
    }
    if i == 0 {
        assert(s@.take(0).len() == 0);
        None
    } else {
        assert(s@.take(i as int).last() == c);
        Some(i - 1)
    }
}

/// Position of the first `c` in `s`, if any.
pub fn find_first(s: &str, c: char) -> (r: Option<usize>)
    ensures
        match r {
            Some(i) => i as int == first_index_of(s@, c),
            None => first_index_of(s@, c) == -1,
        },
{
    let n = s.unicode_len();
    let mut i: usize = 0;
    while i < n && s.get_char(i) != c
        invariant
            0 <= i <= n,
            n == s@.len(),
            forall|k: int| 0 <= k < i ==> s@[k] != c,
        decreases n - i,
    {
        i = i + 1;
    }
    proof {
        lemma_first_index_skip(s@, c, i as int);
    }
    if i == n {
        assert(s@.skip(i as int).len() == 0);
        None
    } else {
        assert(s@.skip(i as int)[0] == c);
        Some(i)
    }
}

/// The part of `s` after its last `c`.
pub fn text_after_last(s: &str, c: char) -> (r: String)
    ensures
        r@ == after_last(s@, c),
{
    proof {
        lemma_last_index_bounds(s@, c);
    }
    let n = s.unicode_len();
    match find_last(s, c) {
        Some(i) => substring(s, i + 1, n),
        None => substring(s, 0, n),
    }
}

/// The part of `s` before its first `c`.
pub fn text_before_first(s: &str, c: char) -> (r: String)
    ensures
        r@ == before_first(s@, c),
{
    proof {
        lemma_first_index_bounds(s@, c);
    }
    let n = s.unicode_len();
    match find_first(s, c) {
        Some(i) => substring(s, 0, i),
        None => {
            assert(s@.subrange(0, n as int) =~= s@);
            substring(s, 0, n)
        },
    }
}

/// `s` with every line break written as `<br>`.
pub open spec fn with_br(s: Seq<char>) -> Seq<char>
    decreases s.len(),
{
    if s.len() == 0 {
        s
    } else if s.last() == '\n' {
        with_br(s.drop_last()) + "<br>"@
    } else {
        with_br(s.drop_last()).push(s.last())
    }
}

pub fn replace_newlines(s: &str) -> (r: String)
    ensures
        r@ == with_br(s@),
{
    let n = s.unicode_len();
    let mut r = String::new();
    let mut i: usize = 0;
    while i < n
        invariant
            0 <= i <= n,
            n == s@.len(),
            r@ == with_br(s@.take(i as int)),
        decreases n - i,
    {
        assert(s@.take(i + 1).drop_last() =~= s@.take(i as int));
        if s.get_char(i) == '\n' {
            r.append("<br>");
        } else {
            r.append(s.substring_char(i, i + 1));
            assert(r@ =~= with_br(s@.take(i as int)).push(s@[i as int]));
        }
        i = i + 1;
    }
    assert(s@.take(n as int) =~= s@);
    r
}

pub open spec fn has_prefix(s: Seq<char>, p: Seq<char>) -> bool {
    p.len() <= s.len() && s.subrange(0, p.len() as int) == p
}

pub fn starts_with(s: &str, p: &str) -> (r: bool)
    ensures
        r == has_prefix(s@, p@),
{
    let n = s.unicode_len();
    let m = p.unicode_len();
    if m > n {
        return false;
    }
    let mut i: usize = 0;
    while i < m
        invariant
            0 <= i <= m <= n,
            n == s@.len(),
            m == p@.len(),
            s@.subrange(0, i as int) == p@.subrange(0, i as int),
        decreases m - i,
    {
        if s.get_char(i) != p.get_char(i) {
            assert(s@.subrange(0, m as int)[i as int] != p@[i as int]);
            return false;
        }
        assert(s@.subrange(0, i + 1) =~= s@.subrange(0, i as int).push(s@[i as int]));
        assert(p@.subrange(0, i + 1) =~= p@.subrange(0, i as int).push(p@[i as int]));
        i = i + 1;
    }
    assert(p@.subrange(0, m as int) =~= p@);
    true
}

/// Whether some element of `v` has the text `s`.
pub open spec fn contains_text(v: Seq<String>, s: Seq<char>) -> bool {
    exists|i: int| 0 <= i < v.len() && #[trigger] v[i]@ == s
}

pub fn vec_contains(v: &Vec<String>, s: &String) -> (r: bool)
    ensures
        r == contains_text(v@, s@),
{
    let mut i: usize = 0;
    while i < v.len()
        invariant
            0 <= i <= v.len(),
            forall|j: int| 0 <= j < i ==> (#[trigger] v@[j])@ != s@,
        decreases v.len() - i,
    {
        if v[i] == *s {
            return true;
        }
        i = i + 1;
    }
    false
}

/// Lexicographic order by code point; for UTF-8 texts it is the order of
/// their bytes, which `str` comparison uses.
pub open spec fn str_lt(a: Seq<char>, b: Seq<char>) -> bool
    decreases a.len(),
{
    if b.len() == 0 {
        false
    } else if a.len() == 0 {
        true
    } else if a[0] != b[0] {
        (a[0] as int) < (b[0] as int)
    } else {
        str_lt(a.drop_first(), b.drop_first())
    }
}

pub proof fn lemma_str_lt_irreflexive(a: Seq<char>)
    ensures
        !str_lt(a, a),
    decreases a.len(),
{
    if a.len() > 0 {
        lemma_str_lt_irreflexive(a.drop_first());
    }
}

/// Two texts are equal or one is below the other, never both ways.
pub proof fn lemma_str_lt_total(a: Seq<char>, b: Seq<char>)
    ensures
        a != b ==> (str_lt(a, b) || str_lt(b, a)),
        !(str_lt(a, b) && str_lt(b, a)),
    decreases a.len(),
{
    if a.len() > 0 && b.len() > 0 {
        lemma_str_lt_total(a.drop_first(), b.drop_first());
        if a[0] == b[0] && a != b {
            assert(a =~= seq![a[0]] + a.drop_first());
            assert(b =~= seq![b[0]] + b.drop_first());
        }
        if a[0] != b[0] {
            assert((a[0] as int) != (b[0] as int));
        }
    } else if a.len() == 0 && b.len() == 0 {
        assert(a =~= b);
    }
}

pub proof fn lemma_str_lt_transitive(a: Seq<char>, b: Seq<char>, c: Seq<char>)
    requires
        str_lt(a, b),
        str_lt(b, c),
    ensures
        str_lt(a, c),
    decreases a.len(),
{
    if a.len() > 0 && b.len() > 0 && c.len() > 0 {
        if a[0] == b[0] && b[0] == c[0] {
            lemma_str_lt_transitive(a.drop_first(), b.drop_first(), c.drop_first());
        } else if a[0] != b[0] && b[0] != c[0] && a[0] == c[0] {
            assert((a[0] as int) < (b[0] as int) && (b[0] as int) < (c[0] as int));
        }
    }
}

/// Not below is transitive too.
pub proof fn lemma_str_le_transitive(a: Seq<char>, b: Seq<char>, c: Seq<char>)
    requires
        !str_lt(b, a),
        !str_lt(c, b),
    ensures
        !str_lt(c, a),
{
    lemma_str_lt_total(a, b);
    lemma_str_lt_total(b, c);
    if str_lt(c, a) {
        if a == b {
        } else {
            lemma_str_lt_transitive(c, a, b);
        }
    }
}

pub fn text_lt(a: &str, b: &str) -> (r: bool)
    ensures
        r == str_lt(a@, b@),
{
    let n = a.unicode_len();
    let m = b.unicode_len();
    let mut i: usize = 0;
    assert(a@.skip(0) =~= a@);
    assert(b@.skip(0) =~= b@);
    while i < n && i < m && a.get_char(i) == b.get_char(i)
        invariant
            0 <= i <= n,
            i <= m,
            n == a@.len(),
            m == b@.len(),
            str_lt(a@, b@) == str_lt(a@.skip(i as int), b@.skip(i as int)),
        decreases n - i,
    {
        assert(a@.skip(i as int).drop_first() =~= a@.skip(i + 1));
        assert(b@.skip(i as int).drop_first() =~= b@.skip(i + 1));
        i = i + 1;
    }
    if i == m {
        assert(b@.skip(i as int).len() == 0);
        false
    } else if i == n {
        assert(a@.skip(i as int).len() == 0);
        true
    } else {
        assert(a@.skip(i as int)[0] == a@[i as int]);
        assert(b@.skip(i as int)[0] == b@[i as int]);
        (a.get_char(i) as u32) < (b.get_char(i) as u32)
    }
}

/// Adds `x` to a list kept in descending order without repeats.
pub open spec fn insert_desc(s: Seq<Seq<char>>, x: Seq<char>) -> Seq<Seq<char>>
    decreases s.len(),
{
    if s.len() == 0 {
        seq![x]
    } else if s.last() == x {
        s
    } else if str_lt(s.last(), x) {
        insert_desc(s.drop_last(), x).push(s.last())
    } else {
        s.push(x)
    }
}

/// Adds each element of `xs` in turn.
pub open spec fn insert_all_desc(s: Seq<Seq<char>>, xs: Seq<Seq<char>>) -> Seq<Seq<char>>
    decreases xs.len(),
{
    if xs.len() == 0 {
        s
    } else {
        insert_desc(insert_all_desc(s, xs.drop_last()), xs.last())
    }
}

pub open spec fn texts_view(v: Seq<String>) -> Seq<Seq<char>> {
    v.map_values(|t: String| t@)
}

proof fn lemma_insert_desc_split(s: Seq<Seq<char>>, x: Seq<char>, j: int)
    requires
        0 <= j <= s.len(),
        forall|k: int| j <= k < s.len() ==> str_lt(#[trigger] s[k], x),
        j == 0 || !str_lt(s[j - 1], x),
    ensures
        insert_desc(s, x) == if j > 0 && s[j - 1] == x {
            s
        } else {
            s.take(j).push(x) + s.skip(j)
        },
    decreases s.len() - j,
{
    if j == s.len() {
        if j == 0 {
            assert(s.take(j).push(x) + s.skip(j) =~= seq![x]);
        } else {
            assert(s.take(j).push(x) + s.skip(j) =~= s.push(x));
        }
    } else {
        let t = s.drop_last();
        assert(str_lt(s.last(), x));
        lemma_str_lt_irreflexive(x);
        assert(s.last() != x);
        assert forall|k: int| j <= k < t.len() implies str_lt(#[trigger] t[k], x) by {
            assert(t[k] == s[k]);
        }
        if j > 0 {
            assert(t[j - 1] == s[j - 1]);
        }
        lemma_insert_desc_split(t, x, j);
        assert(insert_desc(s, x) == insert_desc(t, x).push(s.last()));
        if j > 0 && s[j - 1] == x {
            assert(t.push(s.last()) =~= s);
        } else {
            assert(t.take(j) =~= s.take(j));
            assert((t.take(j).push(x) + t.skip(j)).push(s.last()) =~= s.take(j).push(x) + s.skip(
                j,
            ));
        }
    }
}

/// Adds `x` to `v`, kept in descending order without repeats.
pub fn insert_text_desc(v: &mut Vec<String>, x: &String)
    ensures
        texts_view(final(v)@) == insert_desc(texts_view(old(v)@), x@),
{
    let ghost s = texts_view(v@);
    let mut j = v.len();
    while j > 0 && text_lt(v[j - 1].as_str(), x.as_str())
        invariant
            0 <= j <= v.len(),
            s == texts_view(v@),
            forall|k: int| j <= k < v.len() ==> str_lt(#[trigger] s[k], x@),
        decreases j,
    {
        j = j - 1;
    }
    proof {
        lemma_insert_desc_split(s, x@, j as int);
    }
    if j > 0 && v[j - 1] == *x {
        return;
    }
    v.insert(j, x.clone());
    assert(texts_view(v@) =~= s.take(j as int).push(x@) + s.skip(j as int));
}

/// `n` copies of `c` (none when `n` is not positive).
pub open spec fn fill(c: char, n: int) -> Seq<char> {
    if n <= 0 {
        Seq::empty()
    } else {
        Seq::new(n as nat, |i: int| c)
    }
}

/// `s` followed by copies of `c` up to width `w`.
pub open spec fn pad_right(s: Seq<char>, w: int, c: char) -> Seq<char> {
    s + fill(c, w - s.len())
}

/// Spaces up to width `w`, then `s`.
pub open spec fn pad_left(s: Seq<char>, w: int) -> Seq<char> {
    fill(' ', w - s.len()) + s
}

/// `n` copies of the one-character text `c`.
pub fn fill_exec(c: &str, n: usize) -> (r: String)
    requires
        c@.len() == 1,
    ensures
        r@ == fill(c@[0], n as int),
{
    let mut r = String::new();
    let mut i: usize = 0;
    while i < n
        invariant
            0 <= i <= n,
            c@.len() == 1,
            r@ == fill(c@[0], i as int),
        decreases n - i,
    {
        r.append(c);
        assert(r@ =~= fill(c@[0], i + 1));
        i = i + 1;
    }
    r
}

pub fn pad_right_exec(s: &str, w: usize, c: &str) -> (r: String)
    requires
        c@.len() == 1,
    ensures
        r@ == pad_right(s@, w as int, c@[0]),
{
    let n = s.unicode_len();
    let mut r = String::from_str(s);
    if n < w {
        let f = fill_exec(c, w - n);
        r.append(f.as_str());
    } else {
        assert(fill(c@[0], w - n) =~= Seq::<char>::empty());
    }
    assert(r@ =~= pad_right(s@, w as int, c@[0]));
    r
}

pub fn pad_left_exec(s: &str, w: usize) -> (r: String)
    ensures
        r@ == pad_left(s@, w as int),
{
    proof {
        reveal_strlit(" ");
    }
    let n = s.unicode_len();
    let mut r = if n < w {
        fill_exec(" ", w - n)
    } else {
        assert(fill(' ', w - n) =~= Seq::<char>::empty());
        String::new()
    };
    r.append(s);
    assert(r@ =~= pad_left(s@, w as int));
    r
}

/// `s` centred in width `w`: the smaller half of the padding on the left.
pub open spec fn pad_center(s: Seq<char>, w: int) -> Seq<char> {
    let d = w - s.len();
    if d <= 0 {
        s
    } else {
        fill(' ', d / 2) + s + fill(' ', d - d / 2)
    }
}

pub fn pad_center_exec(s: &str, w: usize) -> (r: String)
    ensures
        r@ == pad_center(s@, w as int),
{
    proof {
        reveal_strlit(" ");
    }
    let n = s.unicode_len();
    if n >= w {
        return String::from_str(s);
    }
    let d = w - n;
    let mut r = fill_exec(" ", d / 2);
    r.append(s);
    let right = fill_exec(" ", d - d / 2);
    r.append(right.as_str());
    assert(r@ =~= pad_center(s@, w as int));
    r
}

} // verus!
