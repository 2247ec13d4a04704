//! Character-level text operations shared by the parser, the name matching
//! and the report writer, each specified over the `Seq<char>` view of a string.
use vstd::prelude::*;

verus! {

broadcast use vstd::string::group_string_axioms;

// ---------------------------------------------------------------------------
// Whitespace and trimming
// ---------------------------------------------------------------------------

/// The Unicode `White_Space` property, which `char::is_whitespace` tests.
pub open spec fn is_ws(c: char) -> bool {
    let u = c as u32;
    ||| 0x09 <= u <= 0x0D
    ||| u == 0x20
    ||| u == 0x85
    ||| u == 0xA0
    ||| u == 0x1680
    ||| 0x2000 <= u <= 0x200A
    ||| u == 0x2028
    ||| u == 0x2029
    ||| u == 0x202F
    ||| u == 0x205F
    ||| u == 0x3000
}

/// `s` without its leading whitespace.
pub open spec fn trim_start(s: Seq<char>) -> Seq<char>
    decreases s.len(),
{
    if s.len() > 0 && is_ws(s[0]) {
        trim_start(s.drop_first())
    } else {
        s
    }
}

/// `s` without its trailing whitespace.
pub open spec fn trim_end(s: Seq<char>) -> Seq<char>
    decreases s.len(),
{
    if s.len() > 0 && is_ws(s.last()) {
        trim_end(s.drop_last())
    } else {
        s
    }
}

/// `s` without the `' '` characters at its end.
pub open spec fn trim_end_spaces(s: Seq<char>) -> Seq<char>
    decreases s.len(),
{
    if s.len() > 0 && s.last() == ' ' {
        trim_end_spaces(s.drop_last())
    } else {
        s
    }
}

/// `s` without leading and trailing whitespace (what `str::trim` returns).
pub open spec fn trim(s: Seq<char>) -> Seq<char> {
    trim_end(trim_start(s))
}

proof fn lemma_trim_start_shape(s: Seq<char>) -> (i: int)
    ensures
        0 <= i <= s.len(),
        trim_start(s) == s.skip(i),
        forall|k: int| 0 <= k < i ==> is_ws(#[trigger] s[k]),
        trim_start(s).len() > 0 ==> !is_ws(trim_start(s)[0]),
    decreases s.len(),
{
    if s.len() > 0 && is_ws(s[0]) {
        let j = lemma_trim_start_shape(s.drop_first());
        assert(s.drop_first().skip(j) =~= s.skip(j + 1));
        assert forall|k: int| 0 <= k < j + 1 implies is_ws(#[trigger] s[k]) by {
            if k > 0 {
                assert(s[k] == s.drop_first()[k - 1]);
            }
        }
        j + 1
    } else {
        assert(s.skip(0) =~= s);
        0
    }
}

proof fn lemma_trim_end_shape(s: Seq<char>) -> (j: int)
    ensures
        0 <= j <= s.len(),
        trim_end(s) == s.take(j),
        forall|k: int| j <= k < s.len() ==> is_ws(#[trigger] s[k]),
        trim_end(s).len() > 0 ==> !is_ws(trim_end(s).last()),
    decreases s.len(),
{
    if s.len() > 0 && is_ws(s.last()) {
        let j = lemma_trim_end_shape(s.drop_last());
        assert(s.drop_last().take(j) =~= s.take(j));
        assert forall|k: int| j <= k < s.len() implies is_ws(#[trigger] s[k]) by {
            if k < s.len() - 1 {
                assert(s[k] == s.drop_last()[k]);
            }
        }
        j
    } else {
        assert(s.take(s.len() as int) =~= s);
        s.len() as int
    }
}

/// Trimming removes whitespace from both ends and nothing else: the result
/// is a contiguous part of the text, everything before and after it is
/// whitespace, and it neither starts nor ends with whitespace.
pub proof fn law_trim(s: Seq<char>)
    ensures
        exists|i: int, j: int|
            0 <= i <= j <= s.len() && trim(s) == s.subrange(i, j) && (forall|k: int|
                0 <= k < i ==> is_ws(#[trigger] s[k])) && (forall|k: int|
                j <= k < s.len() ==> is_ws(#[trigger] s[k])),
        trim(s).len() > 0 ==> !is_ws(trim(s)[0]) && !is_ws(trim(s).last()),
{
    let i = lemma_trim_start_shape(s);
    let t = s.skip(i);
    let j = lemma_trim_end_shape(t);
    assert(trim(s) == t.take(j));
    assert(t.take(j) =~= s.subrange(i, i + j));
    assert forall|k: int| i + j <= k < s.len() implies is_ws(#[trigger] s[k]) by {
        assert(s[k] == t[k - i]);
    }
    assert(0 <= i <= i + j <= s.len());
    if trim(s).len() > 0 {
        assert(trim(s)[0] == trim_start(s)[0]);
    }
}

pub(crate) fn char_is_ws(c: char) -> (r: bool)
    ensures
        r == is_ws(c),
{
    let u = c as u32;
    (0x09 <= u && u <= 0x0D) || u == 0x20 || u == 0x85 || u == 0xA0 || u == 0x1680 || (0x2000
        <= u && u <= 0x200A) || u == 0x2028 || u == 0x2029 || u == 0x202F || u == 0x205F || u
        == 0x3000
}

proof fn lemma_trim_start_skip(s: Seq<char>, i: int)
    requires
        0 <= i < s.len(),
        is_ws(s[i]),
    ensures
        trim_start(s.skip(i)) == trim_start(s.skip(i + 1)),
{
    assert(s.skip(i).drop_first() =~= s.skip(i + 1));
}

proof fn lemma_trim_end_take(s: Seq<char>, j: int)
    requires
        0 < j <= s.len(),
        is_ws(s[j - 1]),
    ensures
        trim_end(s.take(j)) == trim_end(s.take(j - 1)),
{
    assert(s.take(j).drop_last() =~= s.take(j - 1));
}

// ---------------------------------------------------------------------------
// Finding a pattern
// ---------------------------------------------------------------------------

/// `pat` occurs in `s` at position `i`.
pub open spec fn matches_at(s: Seq<char>, pat: Seq<char>, i: int) -> bool {
    0 <= i && i + pat.len() <= s.len() && s.subrange(i, i + pat.len()) == pat
}

/// The first position at or after `i` where `pat` occurs in `s`.
pub open spec fn find_from(s: Seq<char>, pat: Seq<char>, i: int) -> Option<int>
    decreases s.len() + 1 - i,
{
    if i < 0 || i + pat.len() > s.len() {
        None
    } else if matches_at(s, pat, i) {
        Some(i)
    } else {
        find_from(s, pat, i + 1)
    }
}

/// The first position where `pat` occurs in `s` (what `str::find` returns,
/// counted in characters rather than bytes).
pub open spec fn find(s: Seq<char>, pat: Seq<char>) -> Option<int> {
    find_from(s, pat, 0)
}

pub proof fn lemma_find_from_props(s: Seq<char>, pat: Seq<char>, i: int)
    requires
        0 <= i,
    ensures
        find_from(s, pat, i) matches Some(k) ==> i <= k && matches_at(s, pat, k) && forall|
            j: int,
        |
            i <= j < k ==> !matches_at(s, pat, j),
        find_from(s, pat, i) is None ==> forall|j: int| i <= j ==> !matches_at(s, pat, j),
    decreases s.len() + 1 - i,
{
    if i + pat.len() > s.len() {
    } else if matches_at(s, pat, i) {
    } else {
        lemma_find_from_props(s, pat, i + 1);
    }
}

pub proof fn lemma_find_props(s: Seq<char>, pat: Seq<char>)
    ensures
        find(s, pat) matches Some(k) ==> 0 <= k && k + pat.len() <= s.len() && s.subrange(
            k,
            k + pat.len(),
        ) == pat && forall|j: int| 0 <= j < k ==> !matches_at(s, pat, j),
        find(s, pat) is None ==> forall|j: int| 0 <= j ==> !matches_at(s, pat, j),
{
    lemma_find_from_props(s, pat, 0);
}

/// The characters of `s`, in order.
pub(crate) fn chars_of(s: &str) -> (v: Vec<char>)
    ensures
        v@ == s@,
{
    let mut v: Vec<char> = Vec::new();
    for c in it: s.chars()
        invariant
            v@ == it.seq().take(it.index() as int),
    {
        v.push(c);
    }
    v
}

/// Whether `pat` occurs in `s` at position `i`, on character vectors.
fn vec_matches_at(s: &Vec<char>, pat: &Vec<char>, i: usize) -> (r: bool)
    requires
        i + pat@.len() <= s@.len(),
    ensures
        r == matches_at(s@, pat@, i as int),
{
    let sl = s.len();
    let mut k: usize = 0;
    while k < pat.len()
        invariant
            sl == s@.len(),
            k <= pat@.len(),
            i + pat@.len() <= s@.len(),
            forall|m: int| 0 <= m < k ==> s@[i + m] == pat@[m],
        decreases pat@.len() - k,
    {
        if s[i + k] != pat[k] {
            assert(s@.subrange(i as int, i + pat@.len())[k as int] != pat@[k as int]);
            return false;
        }
        k = k + 1;
    }
    assert(s@.subrange(i as int, i + pat@.len()) =~= pat@);
    true
}

/// The first position at or after `from` where `pat` occurs in `s`.
pub(crate) fn vec_find_from(s: &Vec<char>, pat: &Vec<char>, from: usize) -> (r: Option<usize>)
    ensures
        r matches Some(k) ==> find_from(s@, pat@, from as int) == Some(k as int) && s@.len()
            <= usize::MAX,
        r is None ==> find_from(s@, pat@, from as int) is None,
{
    let sl = s.len();
    let pl = pat.len();
    if pl > sl {
        return None;
    }
    let last = sl - pl;
    if from > last {
        return None;
    }
    let mut i = from;
    loop
        invariant
            from <= i <= last,
            last + pl == sl,
            sl == s@.len(),
            pl == pat@.len(),
            find_from(s@, pat@, from as int) == find_from(s@, pat@, i as int),
        decreases last - i,
    {
        if vec_matches_at(s, pat, i) {
            return Some(i);
        }
        if i == last {
            return None;
        }
        i = i + 1;
    }
}

/// The first position where `pat` occurs in `s`, in characters.
pub(crate) fn find_str(s: &str, pat: &str) -> (r: Option<usize>)
    ensures
        r matches Some(k) ==> find(s@, pat@) == Some(k as int) && s@.len() <= usize::MAX,
        r is None ==> find(s@, pat@) is None,
{
    let sv = chars_of(s);
    let pv = chars_of(pat);
    vec_find_from(&sv, &pv, 0)
}

/// `s` without the `' '` characters at its end.
pub(crate) fn trim_end_spaces_str(s: &str) -> (r: &str)
    ensures
        r@ == trim_end_spaces(s@),
{
    let v = chars_of(s);
    let n = v.len();
    let mut hi: usize = n;
    assert(s@.take(n as int) =~= s@);
    while hi > 0 && v[hi - 1] == ' '
        invariant
            hi <= n,
            n == s@.len(),
            v@ == s@,
            trim_end_spaces(s@) == trim_end_spaces(s@.take(hi as int)),
        decreases hi,
    {
        assert(s@.take(hi as int).drop_last() =~= s@.take(hi - 1));
        hi = hi - 1;
    }
    let r = s.substring_char(0, hi);
    assert(r@ =~= s@.take(hi as int));
    r
}

/// `s` without leading and trailing whitespace.
pub(crate) fn trim_str(s: &str) -> (r: &str)
    ensures
        r@ == trim(s@),
{
    let v = chars_of(s);
    let n = v.len();
    let mut lo: usize = 0;
    assert(s@.skip(0) =~= s@);
    while lo < n && char_is_ws(v[lo])
        invariant
            lo <= n,
            n == s@.len(),
            v@ == s@,
            trim_start(s@) == trim_start(s@.skip(lo as int)),
        decreases n - lo,
    {
        proof {
            lemma_trim_start_skip(s@, lo as int);
        }
        lo = lo + 1;
    }
    let ghost mid = s@.skip(lo as int);
    assert(trim_start(mid) == mid) by {
        if mid.len() > 0 {
            assert(mid[0] == v@[lo as int]);
        }
    }
    let mut hi: usize = n;
    assert(mid.take(mid.len() as int) =~= mid);
    while hi > lo && char_is_ws(v[hi - 1])
        invariant
            lo <= hi <= n,
            n == s@.len(),
            v@ == s@,
            mid == s@.skip(lo as int),
            trim_end(mid) == trim_end(mid.take(hi - lo)),
        decreases hi,
    {
        proof {
            lemma_trim_end_take(mid, (hi - lo) as int);
        }
        hi = hi - 1;
    }
    let ghost fin = mid.take(hi - lo);
    assert(trim_end(fin) == fin) by {
        if fin.len() > 0 {
            assert(fin.last() == v@[hi - 1]);
        }
    }
    let r = s.substring_char(lo, hi);
    assert(r@ =~= fin);
    r
}

// ---------------------------------------------------------------------------
// Removing commas
// ---------------------------------------------------------------------------

pub open spec fn not_comma(c: char) -> bool {
    c != ','
}

/// `s` with every `','` removed.
pub open spec fn without_commas(s: Seq<char>) -> Seq<char> {
    s.filter(|c: char| not_comma(c))
}

proof fn lemma_filter_step(s: Seq<char>, i: int)
    requires
        0 <= i < s.len(),
    ensures
        without_commas(s.take(i + 1)) == without_commas(s.take(i)) + (if not_comma(s[i]) {
            seq![s[i]]
        } else {
            Seq::empty()
        }),
{
    reveal(Seq::filter);
    assert(s.take(i + 1).drop_last() =~= s.take(i));
    assert(s.take(i + 1).last() == s[i]);
    if not_comma(s[i]) {
        assert(without_commas(s.take(i)).push(s[i]) =~= without_commas(s.take(i)) + seq![s[i]]);
    } else {
        assert(without_commas(s.take(i)) + Seq::<char>::empty() =~= without_commas(s.take(i)));
    }
}

/// Removing commas drops exactly the `','` characters and keeps every other
/// character, in order: a single `','` becomes nothing, any other single
/// character stays, and the removal works piece by piece on joined texts.
pub proof fn law_without_commas(s: Seq<char>, t: Seq<char>, c: char)
    ensures
        without_commas(Seq::empty()) == Seq::<char>::empty(),
        without_commas(seq![c]) == (if c == ',' {
            Seq::<char>::empty()
        } else {
            seq![c]
        }),
        without_commas(s + t) == without_commas(s) + without_commas(t),
        !without_commas(s).contains(','),
        without_commas(s).len() + s.filter(|x: char| x == ',').len() == s.len(),
{
    reveal(Seq::filter);
    Seq::filter_distributes_over_add(s, t, |x: char| not_comma(x));
    assert(without_commas(Seq::<char>::empty()) =~= Seq::<char>::empty());
    assert(seq![c].drop_last() =~= Seq::<char>::empty());
    assert(seq![c].last() == c);
    assert(without_commas(seq![c]) == if not_comma(c) {
        without_commas(seq![c].drop_last()).push(c)
    } else {
        without_commas(seq![c].drop_last())
    });
    if c != ',' {
        assert(Seq::<char>::empty().push(c) =~= seq![c]);
    }
    assert(!without_commas(s).contains(',')) by {
        broadcast use vstd::seq_lib::group_filter_ensures;

        if without_commas(s).contains(',') {
            let k = choose|k: int| 0 <= k < without_commas(s).len() && without_commas(s)[k] == ',';
            assert(not_comma(without_commas(s)[k]));
        }
    }
    lemma_comma_split(s);
}

proof fn lemma_comma_split(s: Seq<char>)
    ensures
        without_commas(s).len() + s.filter(|x: char| x == ',').len() == s.len(),
    decreases s.len(),
{
    reveal(Seq::filter);
    if s.len() > 0 {
        lemma_comma_split(s.drop_last());
    }
}

/// A new string holding `s` with every `','` removed (what `replace(',', "")` returns).
pub(crate) fn remove_commas(s: &str) -> (r: String)
    ensures
        r@ == without_commas(s@),
{
    let v = chars_of(s);
    let n = v.len();
    let mut out = String::new();
    let mut seg: usize = 0;
    let mut i: usize = 0;
    proof {
        reveal(Seq::filter);
        assert(s@.take(0) =~= Seq::<char>::empty());
    }
    while i < n
        invariant
            seg <= i <= n,
            n == s@.len(),
            v@ == s@,
            out@ + s@.subrange(seg as int, i as int) == without_commas(s@.take(i as int)),
        decreases n - i,
    {
        proof {
            lemma_filter_step(s@, i as int);
        }
        if v[i] == ',' {
            let piece = s.substring_char(seg, i);
            out.append(piece);
            seg = i + 1;
            assert(s@.subrange(seg as int, (i + 1) as int) =~= Seq::<char>::empty());
            assert(out@ + s@.subrange(seg as int, (i + 1) as int) =~= out@);
        } else {
            assert(s@.subrange(seg as int, (i + 1) as int) =~= s@.subrange(seg as int, i as int)
                + seq![s@[i as int]]);
        }
        i = i + 1;
    }
    let piece = s.substring_char(seg, n);
    out.append(piece);
    assert(s@.take(n as int) =~= s@);
    out
}

// ---------------------------------------------------------------------------
// Ordering of names
// ---------------------------------------------------------------------------

/// Lexicographic order on character sequences. Because UTF-8 encodes code
/// points in an order-preserving way, this is the order of `str`'s `Ord`.
pub open spec fn lex_lt(a: Seq<char>, b: Seq<char>) -> bool
    decreases a.len(),
{
    if a.len() == 0 {
        b.len() > 0
    } else if b.len() == 0 {
        false
    } else if a[0] != b[0] {
        (a[0] as int) < (b[0] as int)
    } else {
        lex_lt(a.drop_first(), b.drop_first())
    }
}

pub proof fn lemma_lex_irreflexive(a: Seq<char>)
    ensures
        !lex_lt(a, a),
    decreases a.len(),
{
    if a.len() > 0 {
        lemma_lex_irreflexive(a.drop_first());
    }
}

pub proof fn lemma_lex_transitive(a: Seq<char>, b: Seq<char>, c: Seq<char>)
    requires
        lex_lt(a, b),
        lex_lt(b, c),
    ensures
        lex_lt(a, c),
    decreases a.len(),
{
    if a.len() > 0 && b.len() > 0 && c.len() > 0 {
        if a[0] == b[0] && b[0] == c[0] {
            lemma_lex_transitive(a.drop_first(), b.drop_first(), c.drop_first());
        }
    }
}

pub proof fn lemma_lex_total(a: Seq<char>, b: Seq<char>)
    ensures
        a == b || lex_lt(a, b) || lex_lt(b, a),
    decreases a.len(),
{
    if a.len() > 0 && b.len() > 0 && a[0] == b[0] {
        lemma_lex_total(a.drop_first(), b.drop_first());
        if a.drop_first() == b.drop_first() {
            assert(a =~= seq![a[0]] + a.drop_first());
            assert(b =~= seq![b[0]] + b.drop_first());
        }
    } else if a.len() == 0 && b.len() == 0 {
        assert(a =~= b);
    } else if a.len() > 0 && b.len() > 0 {
        assert(a[0] != b[0]);
        assert((a[0] as int) != (b[0] as int));
    }
}

/// Names are ordered as text is: a name comes before every longer name that
/// starts with it, and otherwise by the first character where the two
/// differ, the one with the smaller code point first.
pub proof fn law_lex_order(a: Seq<char>, b: Seq<char>, i: int)
    ensures
        b.len() > 0 ==> lex_lt(a, a + b),
        (0 <= i < a.len() && i < b.len() && a.take(i) == b.take(i) && (a[i] as int) < (
        b[i] as int)) ==> lex_lt(a, b),
    decreases a.len(),
{
    if a.len() > 0 {
        assert((a + b).drop_first() =~= a.drop_first() + b);
        assert((a + b)[0] == a[0]);
        law_lex_order(a.drop_first(), b, -1);
        if 0 < i < a.len() && i < b.len() && a.take(i) == b.take(i) && (a[i] as int) < (b[i] as int) {
            assert(a[0] == a.take(i)[0] && b[0] == b.take(i)[0]);
            assert(a.drop_first().take(i - 1) =~= b.drop_first().take(i - 1)) by {
                assert forall|k: int| 0 <= k < i - 1 implies a.drop_first()[k] == b.drop_first()[k] by {
                    assert(a[k + 1] == a.take(i)[k + 1] && b[k + 1] == b.take(i)[k + 1]);
                }
            }
            law_lex_order(a.drop_first(), b.drop_first(), i - 1);
        }
    }
}

/// Two strictly increasing sequences of names that hold the same names are equal.
pub proof fn lemma_sorted_names_unique(xs: Seq<Seq<char>>, ys: Seq<Seq<char>>)
    requires
        forall|i: int, j: int| 0 <= i < j < xs.len() ==> lex_lt(xs[i], xs[j]),
        forall|i: int, j: int| 0 <= i < j < ys.len() ==> lex_lt(ys[i], ys[j]),
        forall|n: Seq<char>| xs.contains(n) <==> ys.contains(n),
    ensures
        xs == ys,
    decreases xs.len(),
{
    if xs.len() == 0 {
        if ys.len() > 0 {
            assert(ys.contains(ys[0]));
        }
        assert(xs =~= ys);
    } else {
        assert(xs.contains(xs[0]));
        let j = choose|j: int| 0 <= j < ys.len() && ys[j] == xs[0];
        assert(ys.contains(ys[0]));
        let i = choose|i: int| 0 <= i < xs.len() && xs[i] == ys[0];
        if i > 0 && j > 0 {
            assert(lex_lt(xs[0], xs[i]));
            assert(lex_lt(ys[0], ys[j]));
            lemma_lex_transitive(xs[0], ys[0], xs[0]);
            lemma_lex_irreflexive(xs[0]);
        }
        assert(xs[0] == ys[0]);
        let xr = xs.drop_first();
        let yr = ys.drop_first();
        assert forall|n: Seq<char>| xr.contains(n) <==> yr.contains(n) by {
            if xr.contains(n) {
                let k = choose|k: int| 0 <= k < xr.len() && xr[k] == n;
                assert(xs[k + 1] == n);
                assert(lex_lt(xs[0], xs[k + 1]));
                lemma_lex_irreflexive(n);
                assert(ys.contains(n));
                let q = choose|q: int| 0 <= q < ys.len() && ys[q] == n;
                assert(q != 0);
                assert(yr[q - 1] == n);
            }
            if yr.contains(n) {
                let k = choose|k: int| 0 <= k < yr.len() && yr[k] == n;
                assert(ys[k + 1] == n);
                assert(lex_lt(ys[0], ys[k + 1]));
                lemma_lex_irreflexive(n);
                assert(xs.contains(n));
                let q = choose|q: int| 0 <= q < xs.len() && xs[q] == n;
                assert(q != 0);
                assert(xr[q - 1] == n);
            }
        }
        assert forall|a: int, b: int| 0 <= a < b < xr.len() implies lex_lt(xr[a], xr[b]) by {
            assert(xr[a] == xs[a + 1] && xr[b] == xs[b + 1]);
        }
        assert forall|a: int, b: int| 0 <= a < b < yr.len() implies lex_lt(yr[a], yr[b]) by {
            assert(yr[a] == ys[a + 1] && yr[b] == ys[b + 1]);
        }
        lemma_sorted_names_unique(xr, yr);
        assert(xs =~= seq![xs[0]] + xr);
        assert(ys =~= seq![ys[0]] + yr);
    }
}

/// Whether `a` comes strictly before `b` in lexicographic order.
pub(crate) fn str_lt(a: &str, b: &str) -> (r: bool)
    ensures
        r == lex_lt(a@, b@),
{
    let av = chars_of(a);
    let bv = chars_of(b);
    let an = av.len();
    let bn = bv.len();
    let mut i: usize = 0;
    assert(a@.skip(0) =~= a@);
    assert(b@.skip(0) =~= b@);
    loop
        invariant
            i <= an,
            i <= bn,
            an == a@.len(),
            bn == b@.len(),
            av@ == a@,
            bv@ == b@,
            lex_lt(a@, b@) == lex_lt(a@.skip(i as int), b@.skip(i as int)),
        decreases an - i,
    {
        let ghost sa = a@.skip(i as int);
        let ghost sb = b@.skip(i as int);
        if i == an {
            return i < bn;
        }
        if i == bn {
            return false;
        }
        assert(sa[0] == av@[i as int]);
        assert(sb[0] == bv@[i as int]);
        if av[i] != bv[i] {
            return av[i] < bv[i];
        }
        assert(sa.drop_first() =~= a@.skip(i + 1));
        assert(sb.drop_first() =~= b@.skip(i + 1));
        i = i + 1;
    }
}

/// Whether `a` and `b` hold the same characters.
pub(crate) fn str_eq(a: &str, b: &str) -> (r: bool)
    ensures
        r == (a@ == b@),
{
    let av = chars_of(a);
    let bv = chars_of(b);
    if av.len() != bv.len() {
        return false;
    }
    let n = av.len();
    let mut i: usize = 0;
    while i < n
        invariant
            i <= n,
            n == a@.len(),
            n == b@.len(),
            av@ == a@,
            bv@ == b@,
            forall|k: int| 0 <= k < i ==> a@[k] == b@[k],
        decreases n - i,
    {
        if av[i] != bv[i] {
            return false;
        }
        i = i + 1;
    }
    assert(a@ =~= b@);
    true
}

// ---------------------------------------------------------------------------
// Splitting at a pattern
// ---------------------------------------------------------------------------

/// The first piece of `s` split at `pat`: the text before the first
/// occurrence, or all of `s` when there is none.
pub open spec fn first_piece(s: Seq<char>, pat: Seq<char>) -> Seq<char> {
    match find(s, pat) {
        Some(i) => s.take(i),
        None => s,
    }
}

/// The second piece of `s` split at `pat`: the text between the first and
/// the second occurrence (or the end), when there is a first occurrence.
pub open spec fn second_piece(s: Seq<char>, pat: Seq<char>) -> Option<Seq<char>> {
    match find(s, pat) {
        Some(i) => Some(first_piece(s.skip(i + pat.len()), pat)),
        None => None,
    }
}

/// The first piece of `s` split at `pat`.
pub(crate) fn first_piece_str<'a>(s: &'a str, pat: &str) -> (r: &'a str)
    ensures
        r@ == first_piece(s@, pat@),
{
    proof {
        lemma_find_props(s@, pat@);
    }
    match find_str(s, pat) {
        Some(i) => {
            let r = s.substring_char(0, i);
            assert(r@ =~= s@.take(i as int));
            r
        },
        None => s,
    }
}

/// The second piece of `s` split at `pat`, if `pat` occurs in `s`.
pub(crate) fn second_piece_str<'a>(s: &'a str, pat: &str) -> (r: Option<&'a str>)
    ensures
        r matches Some(p) ==> second_piece(s@, pat@) == Some(p@),
        r is None ==> second_piece(s@, pat@) is None,
{
    proof {
        lemma_find_props(s@, pat@);
    }
    match find_str(s, pat) {
        Some(i) => {
            let pl = pat.unicode_len();
            let n = s.unicode_len();
            let rest = s.substring_char(i + pl, n);
            assert(rest@ =~= s@.skip(i + pat@.len()));
            Some(first_piece_str(rest, pat))
        },
        None => None,
    }
}

// ---------------------------------------------------------------------------
// Lines
// ---------------------------------------------------------------------------

/// The lines of `s`: the pieces between `'\n'` characters.
pub open spec fn lines(s: Seq<char>) -> Seq<Seq<char>>
    decreases s.len(),
{
    if s.len() == 0 {
        seq![Seq::empty()]
    } else {
        let prev = lines(s.drop_last());
        if s.last() == '\n' {
            prev.push(Seq::empty())
        } else {
            prev.update(prev.len() - 1, prev.last().push(s.last()))
        }
    }
}

pub proof fn lemma_lines_nonempty(s: Seq<char>)
    ensures
        lines(s).len() >= 1,
    decreases s.len(),
{
    if s.len() > 0 {
        lemma_lines_nonempty(s.drop_last());
    }
}

/// The pieces of `ls` joined by `'\n'`.
pub open spec fn join_lines(ls: Seq<Seq<char>>) -> Seq<char>
    decreases ls.len(),
{
    if ls.len() <= 1 {
        if ls.len() == 1 {
            ls[0]
        } else {
            Seq::empty()
        }
    } else {
        join_lines(ls.drop_last()) + seq!['\n'] + ls.last()
    }
}

/// Splitting a text into lines cuts it exactly at its `'\n'` characters:
/// no line holds a `'\n'`, and joining the lines with `'\n'` gives the text back.
pub proof fn law_lines_split_at_line_breaks(s: Seq<char>)
    ensures
        forall|k: int| 0 <= k < lines(s).len() ==> !(#[trigger] lines(s)[k]).contains('\n'),
        join_lines(lines(s)) == s,
    decreases s.len(),
{
    lemma_lines_nonempty(s);
    if s.len() == 0 {
        assert(lines(s) =~= seq![Seq::<char>::empty()]);
        assert(s =~= Seq::<char>::empty());
        assert forall|k: int| 0 <= k < lines(s).len() implies !(#[trigger] lines(s)[k]).contains('\n') by {
            assert(lines(s)[k] =~= Seq::<char>::empty());
        }
    } else {
        let p = s.drop_last();
        let c = s.last();
        law_lines_split_at_line_breaks(p);
        lemma_lines_nonempty(p);
        let prev = lines(p);
        assert(s =~= p + seq![c]);
        if c == '\n' {
            let now = prev.push(Seq::empty());
            assert(lines(s) == now);
            assert(now.drop_last() =~= prev);
            assert(join_lines(now) == join_lines(prev) + seq!['\n'] + Seq::<char>::empty());
            assert(join_lines(now) =~= s);
            assert forall|k: int| 0 <= k < now.len() implies !(#[trigger] now[k]).contains('\n') by {
                if k < prev.len() {
                    assert(now[k] == prev[k]);
                } else {
                    assert(now[k] =~= Seq::<char>::empty());
                }
            }
        } else {
            let last = prev.last();
            let now = prev.update(prev.len() - 1, last.push(c));
            assert(lines(s) == now);
            if prev.len() == 1 {
                assert(join_lines(prev) == prev[0]);
                assert(join_lines(now) == now[0]);
                assert(join_lines(now) =~= s);
            } else {
                assert(now.drop_last() =~= prev.drop_last());
                assert(join_lines(prev) == join_lines(prev.drop_last()) + seq!['\n'] + last);
                assert(join_lines(now) == join_lines(prev.drop_last()) + seq!['\n'] + last.push(c));
                assert(join_lines(now) =~= s);
            }
            assert forall|k: int| 0 <= k < now.len() implies !(#[trigger] now[k]).contains('\n') by {
                if k < prev.len() - 1 {
                    assert(now[k] == prev[k]);
                } else {
                    assert(!prev[k].contains('\n'));
                    assert(now[k] == last.push(c));
                    if now[k].contains('\n') {
                        let q = choose|q: int| 0 <= q < now[k].len() && now[k][q] == '\n';
                        if q < last.len() {
                            assert(last[q] == '\n');
                        }
                    }
                }
            }
        }
    }
}

/// The lines of two texts joined by a `'\n'` are the lines of the first
/// followed by the lines of the second.
pub proof fn lemma_lines_join(a: Seq<char>, b: Seq<char>)
    ensures
        lines(a + seq!['\n'] + b) == lines(a) + lines(b),
    decreases b.len(),
{
    let s = a + seq!['\n'] + b;
    if b.len() == 0 {
        assert(s.drop_last() =~= a);
        assert(s.last() == '\n');
        assert(lines(b) =~= seq![Seq::<char>::empty()]);
        assert(lines(a).push(Seq::<char>::empty()) =~= lines(a) + lines(b));
    } else {
        lemma_lines_join(a, b.drop_last());
        lemma_lines_nonempty(b.drop_last());
        lemma_lines_nonempty(a);
        assert(s.drop_last() =~= a + seq!['\n'] + b.drop_last());
        assert(s.last() == b.last());
        let pa = lines(a);
        let pb = lines(b.drop_last());
        if b.last() == '\n' {
            assert((pa + pb).push(Seq::<char>::empty()) =~= pa + pb.push(Seq::<char>::empty()));
        } else {
            let prev = pa + pb;
            assert(prev.last() == pb.last());
            assert(prev.update(prev.len() - 1, prev.last().push(b.last())) =~= pa + pb.update(
                pb.len() - 1,
                pb.last().push(b.last()),
            ));
        }
    }
}

} // verus!
