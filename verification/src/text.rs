//! Character-level text operations on `str`/`String`, each specified over
//! the character sequence that the string holds (`s@`).

use vstd::prelude::*;

verus! {

/// The Unicode `White_Space` property, which `char::is_whitespace` (and so
/// `str::trim` and `str::split_whitespace`) tests.
pub open spec fn is_space(c: char) -> bool {
    let u = c as u32;
    ||| 0x09 <= u <= 0x0d
    ||| u == 0x20
    ||| u == 0x85
    ||| u == 0xa0
    ||| u == 0x1680
    ||| 0x2000 <= u <= 0x200a
    ||| u == 0x2028
    ||| u == 0x2029
    ||| u == 0x202f
    ||| u == 0x205f
    ||| u == 0x3000
}

/// `s` without its leading white space.
pub open spec fn trim_start_spec(s: Seq<char>) -> Seq<char>
    decreases s.len(),
{
    if s.len() > 0 && is_space(s[0]) {
        trim_start_spec(s.drop_first())
    } else {
        s
    }
}

/// `s` without its trailing white space.
pub open spec fn trim_end_spec(s: Seq<char>) -> Seq<char>
    decreases s.len(),
{
    if s.len() > 0 && is_space(s.last()) {
        trim_end_spec(s.drop_last())
    } else {
        s
    }
}

/// `s` without leading and trailing white space.
pub open spec fn trim_spec(s: Seq<char>) -> Seq<char> {
    trim_end_spec(trim_start_spec(s))
}

/// `s` with every tab and newline turned into a space.
pub open spec fn blank_controls(s: Seq<char>) -> Seq<char> {
    s.map_values(|c: char| if c == '\t' || c == '\n' { ' ' } else { c })
}

/// Whether `pat` occurs in `s` starting at index `i`.
pub open spec fn occurs_at(s: Seq<char>, pat: Seq<char>, i: int) -> bool {
    0 <= i && i + pat.len() <= s.len() && s.subrange(i, i + pat.len()) == pat
}

/// Whether `pat` occurs anywhere in `s`.
pub open spec fn contains_spec(s: Seq<char>, pat: Seq<char>) -> bool {
    exists|i: int| occurs_at(s, pat, i)
}

/// Every non-overlapping occurrence of a non-empty `pat`, found from the
/// left, replaced by `rep`.
pub open spec fn replace_nonempty(s: Seq<char>, pat: Seq<char>, rep: Seq<char>) -> Seq<char>
    recommends
        pat.len() > 0,
    decreases s.len(),
{
    if pat.len() == 0 || s.len() < pat.len() {
        s
    } else if s.subrange(0, pat.len() as int) == pat {
        rep + replace_nonempty(s.subrange(pat.len() as int, s.len() as int), pat, rep)
    } else {
        seq![s[0]] + replace_nonempty(s.drop_first(), pat, rep)
    }
}

/// `rep` put before every character of `s` and at its end: what replacing
/// the empty pattern gives.
pub open spec fn interleave(s: Seq<char>, rep: Seq<char>) -> Seq<char>
    decreases s.len(),
{
    if s.len() == 0 {
        rep
    } else {
        rep + seq![s[0]] + interleave(s.drop_first(), rep)
    }
}

/// What `str::replace(s, pat, rep)` returns.
pub open spec fn replace_spec(s: Seq<char>, pat: Seq<char>, rep: Seq<char>) -> Seq<char> {
    if pat.len() == 0 {
        interleave(s, rep)
    } else {
        replace_nonempty(s, pat, rep)
    }
}

/// The parts put one after another with `sep` between each two.
pub open spec fn join_spec(parts: Seq<Seq<char>>, sep: Seq<char>) -> Seq<char>
    decreases parts.len(),
{
    if parts.len() == 0 {
        Seq::empty()
    } else if parts.len() == 1 {
        parts[0]
    } else {
        join_spec(parts.drop_last(), sep) + sep + parts.last()
    }
}

/// The decimal digit for `d`, `0 <= d < 10`.
pub open spec fn digit_char(d: int) -> char {
    if d == 0 { '0' }
    else if d == 1 { '1' }
    else if d == 2 { '2' }
    else if d == 3 { '3' }
    else if d == 4 { '4' }
    else if d == 5 { '5' }
    else if d == 6 { '6' }
    else if d == 7 { '7' }
    else if d == 8 { '8' }
    else { '9' }
}

/// The decimal digits of a natural number, without leading zeros.
pub open spec fn digits_spec(n: nat) -> Seq<char>
    decreases n,
{
    if n < 10 {
        seq![digit_char(n as int)]
    } else {
        digits_spec(n / 10).push(digit_char((n % 10) as int))
    }
}

/// The decimal text of an integer, as `Display` writes it.
pub open spec fn decimal(n: int) -> Seq<char> {
    if n < 0 {
        seq!['-'] + digits_spec((-n) as nat)
    } else {
        digits_spec(n as nat)
    }
}

/// The code of `c` with ASCII upper-case letters mapped to lower case.
pub open spec fn ascii_lower(c: char) -> u32 {
    if 'A' <= c && c <= 'Z' {
        ((c as u32) + 32) as u32
    } else {
        c as u32
    }
}

/// Equality up to ASCII case, as `str::eq_ignore_ascii_case` decides it.
pub open spec fn eq_ignore_ascii_case_spec(a: Seq<char>, b: Seq<char>) -> bool {
    a.len() == b.len() && forall|i: int| 0 <= i < a.len() ==> ascii_lower(a[i]) == ascii_lower(b[i])
}

/// What `char::to_uppercase`, applied to every character of `s` and
/// concatenated, gives; that is what `str::to_uppercase` returns.
pub uninterp spec fn upper_case(s: Seq<char>) -> Seq<char>;

/// What `str::to_lowercase` returns for `s`.
pub uninterp spec fn lower_case(s: Seq<char>) -> Seq<char>;

/// Whether every character of `s` is ASCII.
pub open spec fn ascii_text(s: Seq<char>) -> bool {
    forall|i: int| 0 <= i < s.len() ==> (#[trigger] s[i] as u32) < 128
}

/// `c` with an ASCII lower-case letter made upper case.
pub open spec fn ascii_to_upper(c: char) -> char {
    if 'a' <= c && c <= 'z' {
        ((c as u32) - 32) as char
    } else {
        c
    }
}

/// `c` with an ASCII upper-case letter made lower case.
pub open spec fn ascii_to_lower(c: char) -> char {
    if 'A' <= c && c <= 'Z' {
        ((c as u32) + 32) as char
    } else {
        c
    }
}

/// Appends one character (`String::push`).
#[verifier::external_body]
pub(crate) fn push_char(s: &mut String, c: char)
    ensures
        final(s)@ == old(s)@.push(c),
{
    s.push(c);
}

/// `str::to_uppercase`, whose result is named `upper_case`.  The Unicode
/// upper-case mapping of an ASCII character is its ASCII upper case, so an
/// ASCII text maps character by character.
#[verifier::external_body]
pub(crate) fn to_upper(s: &str) -> (r: String)
    ensures
        r@ == upper_case(s@),
        ascii_text(s@) ==> r@ == s@.map_values(|c: char| ascii_to_upper(c)),
{
    s.to_uppercase()
}

/// `str::to_lowercase`, whose result is named `lower_case`.  The Unicode
/// lower-case mapping of an ASCII character is its ASCII lower case, so an
/// ASCII text maps character by character.
#[verifier::external_body]
pub(crate) fn to_lower(s: &str) -> (r: String)
    ensures
        r@ == lower_case(s@),
        ascii_text(s@) ==> r@ == s@.map_values(|c: char| ascii_to_lower(c)),
{
    s.to_lowercase()
}

/// `char::is_whitespace`, decided by the Unicode `White_Space` list.
pub fn is_space_char(c: char) -> (b: bool)
    ensures
        b == is_space(c),
{
    let u = c as u32;
    (0x09 <= u && u <= 0x0d) || u == 0x20 || u == 0x85 || u == 0xa0 || u == 0x1680 || (0x2000 <= u
        && u <= 0x200a) || u == 0x2028 || u == 0x2029 || u == 0x202f || u == 0x205f || u == 0x3000
}

/// The characters of `s`, in order.
pub fn chars_of(s: &str) -> (v: Vec<char>)
    ensures
        v@ == s@,
{
    let mut v: Vec<char> = Vec::new();
    for c in it: s.chars()
        invariant
            it.seq() == s@,
            v@ == s@.take(it.index() as int),
    {
        proof {
            assert(s@.take(it.index() as int + 1) == s@.take(it.index() as int).push(c));
        }
        v.push(c);
    }
    proof {
        assert(s@.take(s@.len() as int) == s@);
    }
    v
}

/// The string of the characters `v[lo..hi]`.
pub fn string_of(v: &Vec<char>, lo: usize, hi: usize) -> (r: String)
    requires
        lo <= hi <= v.len(),
    ensures
        r@ == v@.subrange(lo as int, hi as int),
{
    let mut r = String::new();
    let mut i = lo;
    while i < hi
        invariant
            lo <= i <= hi <= v.len(),
            r@ == v@.subrange(lo as int, i as int),
        decreases hi - i,
    {
        push_char(&mut r, v[i]);
        proof {
            assert(v@.subrange(lo as int, i + 1) == v@.subrange(lo as int, i as int).push(v@[i as int]));
        }
        i = i + 1;
    }
    r
}

pub(crate) proof fn lemma_trim_start_skip(s: Seq<char>, i: int)
    requires
        0 <= i <= s.len(),
        forall|k: int| 0 <= k < i ==> is_space(s[k]),
    ensures
        trim_start_spec(s) == trim_start_spec(s.subrange(i, s.len() as int)),
    decreases i,
{
    if i > 0 {
        lemma_trim_start_skip(s.drop_first(), i - 1);
        assert(s.drop_first().subrange(i - 1, s.drop_first().len() as int) == s.subrange(i, s.len() as int));
    } else {
        assert(s.subrange(0, s.len() as int) == s);
    }
}

pub(crate) proof fn lemma_trim_end_take(s: Seq<char>, j: int)
    requires
        0 <= j <= s.len(),
        forall|k: int| j <= k < s.len() ==> is_space(s[k]),
    ensures
        trim_end_spec(s) == trim_end_spec(s.subrange(0, j)),
    decreases s.len() - j,
{
    if j < s.len() {
        lemma_trim_end_take(s.drop_last(), j);
        assert(s.drop_last().subrange(0, j) == s.subrange(0, j));
    } else {
        assert(s.subrange(0, s.len() as int) == s);
    }
}

/// Where `trim_start_spec` cuts: `s` from the returned index on, which is
/// the first character that is not white space.
pub proof fn lemma_trim_start_shape(s: Seq<char>) -> (i: int)
    ensures
        0 <= i <= s.len(),
        trim_start_spec(s) == s.subrange(i, s.len() as int),
        i < s.len() ==> !is_space(s[i]),
        forall|k: int| 0 <= k < i ==> is_space(#[trigger] s[k]),
    decreases s.len(),
{
    if s.len() > 0 && is_space(s[0]) {
        let k = lemma_trim_start_shape(s.drop_first());
        assert(s.drop_first().subrange(k, s.drop_first().len() as int) == s.subrange(k + 1, s.len() as int));
        assert forall|m: int| 0 <= m < k + 1 implies is_space(#[trigger] s[m]) by {
            if m > 0 {
                assert(s[m] == s.drop_first()[m - 1]);
            }
        }
        k + 1
    } else {
        assert(s.subrange(0, s.len() as int) == s);
        0
    }
}

/// Where `trim_end_spec` cuts: `s` up to the returned index, just past the
/// last character that is not white space.
pub proof fn lemma_trim_end_shape(s: Seq<char>) -> (j: int)
    ensures
        0 <= j <= s.len(),
        trim_end_spec(s) == s.subrange(0, j),
        j > 0 ==> !is_space(s[j - 1]),
        forall|k: int| j <= k < s.len() ==> is_space(#[trigger] s[k]),
    decreases s.len(),
{
    if s.len() > 0 && is_space(s.last()) {
        let k = lemma_trim_end_shape(s.drop_last());
        assert(s.drop_last().subrange(0, k) == s.subrange(0, k));
        assert forall|m: int| k <= m < s.len() implies is_space(#[trigger] s[m]) by {
            if m < s.len() - 1 {
                assert(s[m] == s.drop_last()[m]);
            }
        }
        k
    } else {
        assert(s.subrange(0, s.len() as int) == s);
        s.len() as int
    }
}

/// `trim_spec(s)` is a piece of `s` that neither begins nor ends with
/// white space.
pub proof fn lemma_trim_shape(s: Seq<char>) -> (ij: (int, int))
    ensures
        0 <= ij.0 <= ij.1 <= s.len(),
        trim_spec(s) == s.subrange(ij.0, ij.1),
        trim_spec(s).len() > 0 ==> !is_space(trim_spec(s)[0]) && !is_space(trim_spec(s).last()),
{
    let i = lemma_trim_start_shape(s);
    let t = s.subrange(i, s.len() as int);
    let j = lemma_trim_end_shape(t);
    assert(t.subrange(0, j) == s.subrange(i, i + j));
    if j > 0 {
        assert(t[0] == s[i]);
        assert(trim_spec(s)[0] == t[0]);
    }
    (i, i + j)
}

/// A text that neither begins nor ends with white space is its own trim.
pub proof fn lemma_trim_fixed(t: Seq<char>)
    requires
        t.len() > 0 ==> !is_space(t[0]) && !is_space(t.last()),
    ensures
        trim_spec(t) == t,
{
}

/// Index of the first character of `v[lo..]` that is not white space
/// (`v.len()` when there is none).
pub(crate) fn skip_spaces(v: &Vec<char>, lo: usize) -> (i: usize)
    requires
        lo <= v.len(),
    ensures
        lo <= i <= v.len(),
        forall|k: int| lo <= k < i ==> is_space(v@[k]),
        i < v.len() ==> !is_space(v@[i as int]),
{
    let mut i = lo;
    while i < v.len() && is_space_char(v[i])
        invariant
            lo <= i <= v.len(),
            forall|k: int| lo <= k < i ==> is_space(v@[k]),
        decreases v.len() - i,
    {
        i = i + 1;
    }
    i
}

/// Index just past the last character of `v[lo..hi]` that is not white
/// space (`lo` when there is none).
pub(crate) fn end_of_text(v: &Vec<char>, lo: usize, hi: usize) -> (j: usize)
    requires
        lo <= hi <= v.len(),
    ensures
        lo <= j <= hi,
        forall|k: int| j <= k < hi ==> is_space(v@[k]),
        j > lo ==> !is_space(v@[j - 1]),
{
    let mut j = hi;
    while j > lo && is_space_char(v[j - 1])
        invariant
            lo <= j <= hi <= v.len(),
            forall|k: int| j <= k < hi ==> is_space(v@[k]),
        decreases j - lo,
    {
        j = j - 1;
    }
    j
}

/// `s` without leading and trailing white space (`str::trim`).
pub fn trim(s: &str) -> (r: String)
    ensures
        r@ == trim_spec(s@),
{
    let v = chars_of(s);
    let i = skip_spaces(&v, 0);
    let j = end_of_text(&v, i, v.len());
    proof {
        lemma_trim_start_skip(v@, i as int);
        let t = v@.subrange(i as int, v@.len() as int);
        if i == v.len() {
            assert(t.len() == 0);
        } else {
            assert(t[0] == v@[i as int]);
        }
        assert(trim_start_spec(t) == t);
        lemma_trim_end_take(t, j - i);
        assert(t.subrange(0, j - i) == v@.subrange(i as int, j as int));
        let u = v@.subrange(i as int, j as int);
        if u.len() > 0 {
            assert(u.last() == v@[j - 1]);
        }
        assert(trim_end_spec(u) == u);
    }
    string_of(&v, i, j)
}

/// `s` without trailing white space (`str::trim_end`).
pub fn trim_end(s: &str) -> (r: String)
    ensures
        r@ == trim_end_spec(s@),
{
    let v = chars_of(s);
    let j = end_of_text(&v, 0, v.len());
    proof {
        lemma_trim_end_take(v@, j as int);
        let u = v@.subrange(0, j as int);
        if u.len() > 0 {
            assert(u.last() == v@[j - 1]);
        }
        assert(trim_end_spec(u) == u);
    }
    string_of(&v, 0, j)
}

/// Whether `pat` occurs in `v` at index `i`.
fn occurs_at_exec(v: &Vec<char>, pat: &Vec<char>, i: usize) -> (b: bool)
    requires
        i <= v.len(),
    ensures
        b == occurs_at(v@, pat@, i as int),
{
    if pat.len() > v.len() - i {
        return false;
    }
    let mut k: usize = 0;
    while k < pat.len()
        invariant
            i + pat.len() <= v.len(),
            k <= pat.len(),
            forall|m: int| 0 <= m < k ==> v@[i + m] == pat@[m],
        decreases pat.len() - k,
    {
        if v[i + k] != pat[k] {
            proof {
                assert(v@.subrange(i as int, i + pat.len())[k as int] != pat@[k as int]);
            }
            return false;
        }
        k = k + 1;
    }
    proof {
        assert(v@.subrange(i as int, i + pat.len()) == pat@);
    }
    true
}

/// Whether `pat` occurs in `s` (`str::contains`).
pub fn contains(s: &str, pat: &str) -> (b: bool)
    ensures
        b == contains_spec(s@, pat@),
{
    let v = chars_of(s);
    let p = chars_of(pat);
    let mut i: usize = 0;
    while i < v.len()
        invariant
            v@ == s@,
            p@ == pat@,
            i <= v.len(),
            forall|k: int| 0 <= k < i ==> !occurs_at(v@, p@, k),
        decreases v.len() - i,
    {
        if occurs_at_exec(&v, &p, i) {
            return true;
        }
        i = i + 1;
    }
    if occurs_at_exec(&v, &p, i) {
        return true;
    }
    proof {
        assert forall|k: int| !occurs_at(s@, pat@, k) by {
            if 0 <= k < i {
            } else if k > i {
            }
        }
    }
    false
}

proof fn lemma_interleave_step(s: Seq<char>, i: int, rep: Seq<char>)
    requires
        0 <= i < s.len(),
    ensures
        interleave(s.subrange(i, s.len() as int), rep) == rep + seq![s[i]] + interleave(
            s.subrange(i + 1, s.len() as int),
            rep,
        ),
{
    let t = s.subrange(i, s.len() as int);
    assert(t.drop_first() == s.subrange(i + 1, s.len() as int));
}

/// `s` with every occurrence of `pat` replaced by `rep` (`str::replace`).
pub fn replace(s: &str, pat: &str, rep: &str) -> (r: String)
    ensures
        r@ == replace_spec(s@, pat@, rep@),
{
    let v = chars_of(s);
    let p = chars_of(pat);
    let mut r = String::new();
    let mut i: usize = 0;
    if p.len() == 0 {
        proof {
            assert(s@.subrange(0, s@.len() as int) == s@);
        }
        while i < v.len()
            invariant
                v@ == s@,
                p@ == pat@,
                pat@.len() == 0,
                i <= v.len(),
                interleave(s@, rep@) == r@ + interleave(s@.subrange(i as int, s@.len() as int), rep@),
            decreases v.len() - i,
        {
            proof {
                lemma_interleave_step(s@, i as int, rep@);
            }
            r.append(rep);
            push_char(&mut r, v[i]);
            i = i + 1;
        }
        r.append(rep);
        proof {
            assert(s@.subrange(i as int, s@.len() as int).len() == 0);
            assert(s@.subrange(0, s@.len() as int) == s@);
        }
        return r;
    }
    proof {
        assert(s@.subrange(0, s@.len() as int) == s@);
    }
    while i < v.len()
        invariant
            v@ == s@,
            p@ == pat@,
            pat@.len() > 0,
            i <= v.len(),
            replace_nonempty(s@, pat@, rep@) == r@ + replace_nonempty(
                s@.subrange(i as int, s@.len() as int),
                pat@,
                rep@,
            ),
        decreases v.len() - i,
    {
        let ghost t = s@.subrange(i as int, s@.len() as int);
        if occurs_at_exec(&v, &p, i) {
            proof {
                assert(t.subrange(0, pat@.len() as int) == s@.subrange(i as int, i + pat@.len()));
                assert(t.subrange(pat@.len() as int, t.len() as int) == s@.subrange(
                    i + pat@.len(),
                    s@.len() as int,
                ));
            }
            r.append(rep);
            i = i + p.len();
        } else {
            proof {
                if t.len() >= pat@.len() {
                    assert(t.subrange(0, pat@.len() as int) == s@.subrange(i as int, i + pat@.len()));
                    assert(t.drop_first() == s@.subrange(i + 1, s@.len() as int));
                    assert(t[0] == v@[i as int]);
                } else {
                    assert(replace_nonempty(t, pat@, rep@) == t);
                    assert(t == seq![v@[i as int]] + s@.subrange(i + 1, s@.len() as int));
                    lemma_replace_short(s@.subrange(i + 1, s@.len() as int), pat@, rep@);
                }
            }
            push_char(&mut r, v[i]);
            i = i + 1;
        }
    }
    proof {
        assert(s@.subrange(i as int, s@.len() as int).len() == 0);
    }
    r
}

proof fn lemma_replace_short(s: Seq<char>, pat: Seq<char>, rep: Seq<char>)
    requires
        s.len() < pat.len(),
    ensures
        replace_nonempty(s, pat, rep) == s,
{
}

/// The strings of `parts`, with `sep` between each two (`[String]::join`).
pub fn join(parts: &Vec<String>, sep: &str) -> (r: String)
    ensures
        r@ == join_spec(parts@.map_values(|p: String| p@), sep@),
{
    let ghost views = parts@.map_values(|p: String| p@);
    let mut r = String::new();
    let mut i: usize = 0;
    while i < parts.len()
        invariant
            views == parts@.map_values(|p: String| p@),
            i <= parts.len(),
            r@ == join_spec(views.take(i as int), sep@),
        decreases parts.len() - i,
    {
        if i > 0 {
            r.append(sep);
        }
        r.append(parts[i].as_str());
        proof {
            assert(views.take(i + 1).drop_last() == views.take(i as int));
            assert(views.take(i + 1).last() == parts@[i as int]@);
            if i == 0 {
                assert(views.take(1)[0] == parts@[0]@);
            }
        }
        i = i + 1;
    }
    proof {
        assert(views.take(parts.len() as int) == views);
    }
    r
}

/// Equality up to ASCII case (`str::eq_ignore_ascii_case`).
pub fn eq_ignore_ascii_case(a: &str, b: &str) -> (r: bool)
    ensures
        r == eq_ignore_ascii_case_spec(a@, b@),
{
    let x = chars_of(a);
    let y = chars_of(b);
    if x.len() != y.len() {
        return false;
    }
    let mut i: usize = 0;
    while i < x.len()
        invariant
            x@ == a@,
            y@ == b@,
            x.len() == y.len(),
            i <= x.len(),
            forall|k: int| 0 <= k < i ==> ascii_lower(x@[k]) == ascii_lower(y@[k]),
        decreases x.len() - i,
    {
        if ascii_lower_char(x[i]) != ascii_lower_char(y[i]) {
            return false;
        }
        i = i + 1;
    }
    true
}

fn ascii_lower_char(c: char) -> (r: u32)
    ensures
        r == ascii_lower(c),
{
    if 'A' <= c && c <= 'Z' {
        (c as u32) + 32
    } else {
        c as u32
    }
}

fn digit_of(d: u128) -> (c: char)
    requires
        d < 10,
    ensures
        c == digit_char(d as int),
{
    if d == 0 { '0' }
    else if d == 1 { '1' }
    else if d == 2 { '2' }
    else if d == 3 { '3' }
    else if d == 4 { '4' }
    else if d == 5 { '5' }
    else if d == 6 { '6' }
    else if d == 7 { '7' }
    else if d == 8 { '8' }
    else { '9' }
}

fn push_digits(n: u128, out: &mut String)
    ensures
        final(out)@ == old(out)@ + digits_spec(n as nat),
    decreases n,
{
    if n >= 10 {
        push_digits(n / 10, out);
    }
    push_char(out, digit_of(n % 10));
}

/// The decimal text of `n` (what `n.to_string()` gives).
pub fn decimal_text(n: i128) -> (r: String)
    ensures
        r@ == decimal(n as int),
{
    let mut r = String::new();
    if n < 0 {
        push_char(&mut r, '-');
        let m: u128 = ((-(n + 1)) as u128) + 1;
        push_digits(m, &mut r);
    } else {
        push_digits(n as u128, &mut r);
    }
    r
}

/// Index of the first newline in `s` (`s.len()` when there is none).
pub open spec fn newline_index(s: Seq<char>) -> nat
    decreases s.len(),
{
    if s.len() == 0 {
        0
    } else if s[0] == '\n' {
        0
    } else {
        1 + newline_index(s.drop_first())
    }
}

/// A line of text without the carriage return that ended it.
pub open spec fn strip_cr(line: Seq<char>) -> Seq<char> {
    if line.len() > 0 && line.last() == '\r' {
        line.drop_last()
    } else {
        line
    }
}

/// The lines of `s`, as `str::lines` yields them: split after each newline,
/// a carriage return right before a newline dropped, no empty last line.
pub open spec fn lines_spec(s: Seq<char>) -> Seq<Seq<char>>
    decreases s.len(),
{
    if s.len() == 0 {
        Seq::empty()
    } else {
        let k = newline_index(s);
        if k >= s.len() {
            seq![s]
        } else {
            seq![strip_cr(s.take(k as int))] + lines_spec(s.skip(k as int + 1))
        }
    }
}

proof fn lemma_newline_index_bound(s: Seq<char>)
    ensures
        newline_index(s) <= s.len(),
        newline_index(s) < s.len() ==> s[newline_index(s) as int] == '\n',
        forall|k: int| 0 <= k < newline_index(s) ==> s[k] != '\n',
    decreases s.len(),
{
    if s.len() > 0 && s[0] != '\n' {
        lemma_newline_index_bound(s.drop_first());
        assert forall|k: int| 0 <= k < newline_index(s) implies s[k] != '\n' by {
            if k > 0 {
                assert(s[k] == s.drop_first()[k - 1]);
            }
        }
    }
}

proof fn lemma_newline_index_prefix(cur: Seq<char>, rest: Seq<char>)
    requires
        forall|k: int| 0 <= k < cur.len() ==> cur[k] != '\n',
    ensures
        newline_index(cur + rest) == cur.len() + newline_index(rest),
    decreases cur.len(),
{
    if cur.len() > 0 {
        assert((cur + rest).drop_first() == cur.drop_first() + rest);
        lemma_newline_index_prefix(cur.drop_first(), rest);
    } else {
        assert(cur + rest == rest);
    }
}

/// The lines of `s` (`str::lines`).
pub fn text_lines(s: &str) -> (r: Vec<String>)
    ensures
        r@.map_values(|l: String| l@) == lines_spec(s@),
{
    let v = chars_of(s);
    let mut out: Vec<String> = Vec::new();
    let mut start: usize = 0;
    let mut i: usize = 0;
    proof {
        assert(v@.subrange(0, v@.len() as int) == v@);
        assert(out@.map_values(|l: String| l@) + lines_spec(s@) == lines_spec(s@));
    }
    while i < v.len()
        invariant
            v@ == s@,
            start <= i <= v.len(),
            forall|k: int| start <= k < i ==> v@[k] != '\n',
            lines_spec(s@) == out@.map_values(|l: String| l@) + lines_spec(
                v@.subrange(start as int, v@.len() as int),
            ),
        decreases v.len() - i,
    {
        if v[i] == '\n' {
            let ghost cur = v@.subrange(start as int, i as int);
            let ghost rest = v@.subrange(i as int, v@.len() as int);
            let ghost t = v@.subrange(start as int, v@.len() as int);
            proof {
                assert(t == cur + rest);
                lemma_newline_index_prefix(cur, rest);
                assert(newline_index(rest) == 0);
                assert(t.take(cur.len() as int) == cur);
                assert(t.skip(cur.len() as int + 1) == v@.subrange(i + 1, v@.len() as int));
            }
            let line = if i > start && v[i - 1] == '\r' {
                string_of(&v, start, i - 1)
            } else {
                string_of(&v, start, i)
            };
            proof {
                if i > start && v@[i - 1] == '\r' {
                    assert(cur.last() == v@[i - 1]);
                    assert(cur.drop_last() == v@.subrange(start as int, i - 1));
                }
            }
            let ghost before = out@;
            out.push(line);
            proof {
                assert(out@.map_values(|l: String| l@) == before.map_values(|l: String| l@).push(
                    line@,
                ));
            }
            i = i + 1;
            start = i;
        } else {
            i = i + 1;
        }
    }
    let ghost t = v@.subrange(start as int, v@.len() as int);
    if start < v.len() {
        proof {
            lemma_newline_index_prefix(t, Seq::empty());
            assert(t + Seq::<char>::empty() == t);
        }
        let line = string_of(&v, start, v.len());
        let ghost before = out@;
        out.push(line);
        proof {
            assert(out@.map_values(|l: String| l@) == before.map_values(|l: String| l@).push(line@));
        }
    } else {
        proof {
            assert(t.len() == 0);
            assert(out@.map_values(|l: String| l@) + Seq::<Seq<char>>::empty() == out@.map_values(
                |l: String| l@,
            ));
        }
    }
    out
}

/// Index of the first white-space character of `s` (`s.len()` when there is none).
pub open spec fn space_index(s: Seq<char>) -> nat
    decreases s.len(),
{
    if s.len() == 0 {
        0
    } else if is_space(s[0]) {
        0
    } else {
        1 + space_index(s.drop_first())
    }
}

/// The maximal runs of non-white-space characters of `s`, in order
/// (`str::split_whitespace`).
pub open spec fn words_spec(s: Seq<char>) -> Seq<Seq<char>>
    decreases s.len(),
{
    if s.len() == 0 {
        Seq::empty()
    } else if is_space(s[0]) {
        words_spec(s.drop_first())
    } else {
        let k = space_index(s);
        if k >= s.len() {
            seq![s]
        } else {
            seq![s.take(k as int)] + words_spec(s.skip(k as int))
        }
    }
}

proof fn lemma_space_index_prefix(cur: Seq<char>, rest: Seq<char>)
    requires
        forall|k: int| 0 <= k < cur.len() ==> !is_space(cur[k]),
    ensures
        space_index(cur + rest) == cur.len() + space_index(rest),
    decreases cur.len(),
{
    if cur.len() > 0 {
        assert((cur + rest).drop_first() == cur.drop_first() + rest);
        lemma_space_index_prefix(cur.drop_first(), rest);
    } else {
        assert(cur + rest == rest);
    }
}

/// The white-space separated words of `s` (`str::split_whitespace`).
pub fn split_words(s: &str) -> (r: Vec<String>)
    ensures
        r@.map_values(|w: String| w@) == words_spec(s@),
{
    let v = chars_of(s);
    let mut out: Vec<String> = Vec::new();
    let mut start: usize = 0;
    let mut i: usize = 0;
    proof {
        assert(v@.subrange(0, v@.len() as int) == v@);
        assert(out@.map_values(|w: String| w@) + words_spec(s@) == words_spec(s@));
    }
    while i < v.len()
        invariant
            v@ == s@,
            start <= i <= v.len(),
            forall|k: int| start <= k < i ==> !is_space(v@[k]),
            words_spec(s@) == out@.map_values(|w: String| w@) + words_spec(
                v@.subrange(start as int, v@.len() as int),
            ),
        decreases v.len() - i,
    {
        if is_space_char(v[i]) {
            let ghost cur = v@.subrange(start as int, i as int);
            let ghost rest = v@.subrange(i as int, v@.len() as int);
            let ghost t = v@.subrange(start as int, v@.len() as int);
            proof {
                assert(t == cur + rest);
                assert(rest.drop_first() == v@.subrange(i + 1, v@.len() as int));
                assert(words_spec(rest) == words_spec(v@.subrange(i + 1, v@.len() as int)));
            }
            if start < i {
                proof {
                    lemma_space_index_prefix(cur, rest);
                    assert(t[0] == v@[start as int]);
                    assert(t.take(cur.len() as int) == cur);
                    assert(t.skip(cur.len() as int) == rest);
                }
                let word = string_of(&v, start, i);
                let ghost before = out@;
                out.push(word);
                proof {
                    assert(out@.map_values(|w: String| w@) == before.map_values(|w: String| w@).push(
                        word@,
                    ));
                }
            } else {
                proof {
                    assert(t == rest);
                }
            }
            i = i + 1;
            start = i;
        } else {
            i = i + 1;
        }
    }
    let ghost t = v@.subrange(start as int, v@.len() as int);
    if start < v.len() {
        proof {
            lemma_space_index_prefix(t, Seq::empty());
            assert(t + Seq::<char>::empty() == t);
            assert(t[0] == v@[start as int]);
        }
        let word = string_of(&v, start, v.len());
        let ghost before = out@;
        out.push(word);
        proof {
            assert(out@.map_values(|w: String| w@) == before.map_values(|w: String| w@).push(word@));
        }
    } else {
        proof {
            assert(t.len() == 0);
            assert(out@.map_values(|w: String| w@) + Seq::<Seq<char>>::empty() == out@.map_values(
                |w: String| w@,
            ));
        }
    }
    out
}

/// Whether every character of `s` is an ASCII decimal digit.
pub open spec fn all_digits(s: Seq<char>) -> bool {
    forall|i: int| 0 <= i < s.len() ==> '0' <= #[trigger] s[i] && s[i] <= '9'
}

/// The number that the decimal digits `s` write.
pub open spec fn digits_value(s: Seq<char>) -> nat
    decreases s.len(),
{
    if s.len() == 0 {
        0
    } else {
        digits_value(s.drop_last()) * 10 + ((s.last() as u32) - 48) as nat
    }
}

/// The digits and the sign of an integer text, as `from_str` reads it: an
/// optional `+` (or, where `signed`, `-`) before at least one digit.
/// `None` when the text is no such thing.
pub open spec fn integer_text(s: Seq<char>, signed: bool) -> Option<(bool, nat)> {
    let negative = signed && s.len() > 1 && s[0] == '-';
    let d = if s.len() > 1 && (s[0] == '+' || negative) {
        s.drop_first()
    } else {
        s
    };
    if d.len() > 0 && all_digits(d) {
        Some((negative, digits_value(d)))
    } else {
        None
    }
}

/// What `s.parse::<usize>().ok()` gives.
pub open spec fn parse_usize_spec(s: Seq<char>) -> Option<usize> {
    match integer_text(s, false) {
        Some((_, v)) => if v <= usize::MAX {
            Some(v as usize)
        } else {
            None
        },
        None => None,
    }
}

/// What `s.parse::<i128>().ok()` gives.
pub open spec fn parse_i128_spec(s: Seq<char>) -> Option<i128> {
    match integer_text(s, true) {
        Some((neg, v)) => if neg && v <= 0x8000_0000_0000_0000_0000_0000_0000_0000 {
            Some((-v) as i128)
        } else if !neg && v <= i128::MAX {
            Some(v as i128)
        } else {
            None
        },
        None => None,
    }
}

proof fn lemma_digits_value_grows(s: Seq<char>, j: int)
    requires
        0 <= j <= s.len(),
        all_digits(s),
    ensures
        digits_value(s.take(j)) <= digits_value(s),
    decreases s.len() - j,
{
    if j < s.len() {
        lemma_digits_value_grows(s.drop_last(), j);
        assert(s.drop_last().take(j) == s.take(j));
        assert(s.take(s.len() as int) == s);
    } else {
        assert(s.take(j) == s);
    }
}

/// Reads the sign and the value of an integer text, the value capped:
/// `None` when the text is no integer, `(negative, Some(v))` for a value
/// `v <= limit`, `(negative, None)` for a larger one.
fn read_integer(s: &str, signed: bool, limit: u128) -> (r: Option<(bool, Option<u128>)>)
    requires
        limit >= 10,
    ensures
        match integer_text(s@, signed) {
            None => r is None,
            Some((neg, v)) => r matches Some((n, c)) && n == neg && (match c {
                Some(x) => v <= limit && x == v,
                None => v > limit,
            }),
        },
{
    let v = chars_of(s);
    let negative = signed && v.len() > 1 && v[0] == '-';
    let start: usize = if v.len() > 1 && (v[0] == '+' || negative) {
        1
    } else {
        0
    };
    let ghost d = v@.subrange(start as int, v@.len() as int);
    proof {
        if start == 1 {
            assert(d == s@.drop_first());
        } else {
            assert(d == s@);
        }
        assert(integer_text(s@, signed) == (if d.len() > 0 && all_digits(d) {
            Some((negative, digits_value(d)))
        } else {
            None
        }));
    }
    if start >= v.len() {
        return None;
    }
    let mut i = start;
    while i < v.len()
        invariant
            v@ == s@,
            start <= i <= v.len(),
            d == v@.subrange(start as int, v@.len() as int),
            integer_text(s@, signed) == (if d.len() > 0 && all_digits(d) {
                Some((negative, digits_value(d)))
            } else {
                None
            }),
            forall|k: int| start <= k < i ==> '0' <= v@[k] && v@[k] <= '9',
        decreases v.len() - i,
    {
        if !('0' <= v[i] && v[i] <= '9') {
            proof {
                assert(d[i - start] == v@[i as int]);
                assert(!all_digits(d));
            }
            return None;
        }
        i = i + 1;
    }
    proof {
        assert forall|k: int| 0 <= k < d.len() implies '0' <= #[trigger] d[k] && d[k] <= '9' by {
            assert(d[k] == v@[start + k]);
        }
    }
    let mut acc: u128 = 0;
    let mut j = start;
    while j < v.len()
        invariant
            v@ == s@,
            limit >= 10,
            start <= j <= v.len(),
            d == v@.subrange(start as int, v@.len() as int),
            integer_text(s@, signed) == (if d.len() > 0 && all_digits(d) {
                Some((negative, digits_value(d)))
            } else {
                None
            }),
            d.len() > 0,
            all_digits(d),
            acc <= limit,
            acc == digits_value(d.take(j - start)),
        decreases v.len() - j,
    {
        let ghost p = d.take(j - start + 1);
        proof {
            assert(p.drop_last() == d.take(j - start));
            assert(p.last() == v@[j as int]);
        }
        let dg = (v[j] as u32 - 48) as u128;
        if acc > (limit - dg) / 10 {
            proof {
                assert(acc * 10 + dg > limit) by (nonlinear_arith)
                    requires
                        acc > (limit - dg) / 10,
                        dg <= 9,
                        dg <= limit,
                ;
                lemma_digits_value_grows(d, j - start + 1);
                assert(digits_value(p) == acc * 10 + dg);
                assert(d.len() > 0);
            }
            return Some((negative, None));
        }
        proof {
            assert(acc * 10 + dg <= limit) by (nonlinear_arith)
                requires
                    acc <= (limit - dg) / 10,
                    dg <= limit,
            ;
        }
        acc = acc * 10 + dg;
        j = j + 1;
    }
    proof {
        assert(d.take(d.len() as int) == d);
    }
    Some((negative, Some(acc)))
}

/// `s.parse::<usize>().ok()`.
pub fn parse_usize(s: &str) -> (r: Option<usize>)
    ensures
        r == parse_usize_spec(s@),
{
    match read_integer(s, false, usize::MAX as u128) {
        Some((_, Some(x))) => Some(x as usize),
        _ => None,
    }
}

/// `s.parse::<i128>().ok()`.
pub fn parse_i128(s: &str) -> (r: Option<i128>)
    ensures
        r == parse_i128_spec(s@),
{
    match read_integer(s, true, 0x8000_0000_0000_0000_0000_0000_0000_0000) {
        Some((neg, Some(x))) => {
            if neg {
                if x == 0x8000_0000_0000_0000_0000_0000_0000_0000 {
                    Some(i128::MIN)
                } else {
                    Some(-(x as i128))
                }
            } else if x <= i128::MAX as u128 {
                Some(x as i128)
            } else {
                None
            }
        },
        _ => None,
    }
}

/// Whether two texts are equal (`==` on `str`).
pub fn same_text(a: &str, b: &str) -> (r: bool)
    ensures
        r == (a@ == b@),
{
    let x = chars_of(a);
    let y = chars_of(b);
    if x.len() != y.len() {
        return false;
    }
    let mut i: usize = 0;
    while i < x.len()
        invariant
            x@ == a@,
            y@ == b@,
            x.len() == y.len(),
            i <= x.len(),
            forall|k: int| 0 <= k < i ==> x@[k] == y@[k],
        decreases x.len() - i,
    {
        if x[i] != y[i] {
            return false;
        }
        i = i + 1;
    }
    proof {
        assert(x@ == y@);
    }
    true
}

proof fn lemma_digit_char(d: int)
    requires
        0 <= d < 10,
    ensures
        '0' <= digit_char(d) && digit_char(d) <= '9',
        (digit_char(d) as u32) - 48 == d,
{
    assert('0' as u32 == 48);
    assert('1' as u32 == 49);
    assert('2' as u32 == 50);
    assert('3' as u32 == 51);
    assert('4' as u32 == 52);
    assert('5' as u32 == 53);
    assert('6' as u32 == 54);
    assert('7' as u32 == 55);
    assert('8' as u32 == 56);
    assert('9' as u32 == 57);
}

proof fn lemma_digits_spec(n: nat)
    ensures
        digits_spec(n).len() >= 1,
        all_digits(digits_spec(n)),
        digits_value(digits_spec(n)) == n,
    decreases n,
{
    lemma_digit_char((n % 10) as int);
    if n < 10 {
        let s = digits_spec(n);
        assert(s == seq![digit_char(n as int)]);
        assert(s.drop_last() == Seq::<char>::empty());
        assert(digits_value(s.drop_last()) == 0);
        assert(s.last() == digit_char(n as int));
        assert(n % 10 == n);
        assert(digits_value(s) == n);
    }
    if n >= 10 {
        lemma_digits_spec(n / 10);
        let d = digits_spec(n / 10);
        let s = d.push(digit_char((n % 10) as int));
        assert(digits_spec(n) == s);
        assert(s.drop_last() == d);
        assert(s.last() == digit_char((n % 10) as int));
        assert(digits_value(s) == digits_value(d) * 10 + ((s.last() as u32) - 48) as nat);
        assert(digits_value(s) == (n / 10) * 10 + n % 10);
        assert forall|i: int| 0 <= i < s.len() implies '0' <= #[trigger] s[i] && s[i] <= '9' by {
            if i < d.len() {
                assert(s[i] == d[i]);
            }
        }
    }
}

/// A number's decimal text reads back as the number: what `to_string`
/// writes for an `i128`, `parse::<i128>` reads back.
pub proof fn lemma_decimal_parses_back(n: i128)
    ensures
        parse_i128_spec(decimal(n as int)) == Some(n),
{
    let m: nat = if n < 0 { (-(n as int)) as nat } else { n as nat };
    lemma_digits_spec(m);
    let d = digits_spec(m);
    let s = decimal(n as int);
    if n < 0 {
        assert(s == seq!['-'] + d);
        assert(s.drop_first() == d);
        assert(s[0] == '-');
    } else {
        assert(s == d);
        assert('0' <= s[0] && s[0] <= '9');
    }
}

/// The decimal text of a `usize` reads back as it with `parse::<usize>`.
pub proof fn lemma_usize_text_parses_back(n: usize)
    ensures
        parse_usize_spec(decimal(n as int)) == Some(n),
{
    lemma_digits_spec(n as nat);
    let s = decimal(n as int);
    assert('0' <= s[0] && s[0] <= '9');
}

/// Whether `s` holds no tab.
pub open spec fn tab_free(s: Seq<char>) -> bool {
    forall|k: int| 0 <= k < s.len() ==> #[trigger] s[k] != '\t'
}

/// Whether `s` holds no `c`.
pub open spec fn free_of(s: Seq<char>, c: char) -> bool {
    forall|k: int| 0 <= k < s.len() ==> #[trigger] s[k] != c
}

/// Parts without `c`, joined by a separator without `c`, give a text
/// without `c`.
pub proof fn lemma_join_free_of(parts: Seq<Seq<char>>, sep: Seq<char>, c: char)
    requires
        free_of(sep, c),
        forall|k: int| 0 <= k < parts.len() ==> free_of(#[trigger] parts[k], c),
    ensures
        free_of(join_spec(parts, sep), c),
    decreases parts.len(),
{
    if parts.len() > 1 {
        let rest = parts.drop_last();
        assert forall|k: int| 0 <= k < rest.len() implies free_of(#[trigger] rest[k], c) by {
            assert(rest[k] == parts[k]);
        }
        lemma_join_free_of(rest, sep, c);
        let a = join_spec(rest, sep);
        let l = parts.last();
        assert(free_of(l, c)) by {
            assert(l == parts[parts.len() - 1]);
        }
        let j = a + sep + l;
        assert forall|k: int| 0 <= k < j.len() implies #[trigger] j[k] != c by {
            if k < a.len() {
                assert(j[k] == a[k]);
            } else if k < a.len() + sep.len() {
                assert(j[k] == sep[k - a.len()]);
            } else {
                assert(j[k] == l[k - a.len() - sep.len()]);
            }
        }
    } else if parts.len() == 1 {
        assert(free_of(parts[0], c));
    }
}

/// Joining parts gives a text at least as long as the last part.
pub proof fn lemma_join_len(parts: Seq<Seq<char>>, sep: Seq<char>)
    requires
        parts.len() > 0,
    ensures
        join_spec(parts, sep).len() >= parts.last().len(),
{
    if parts.len() == 1 {
        assert(parts.last() == parts[0]);
    }
}

/// Two texts without tabs, one after the other, hold no tab.
pub proof fn lemma_concat_tab_free(a: Seq<char>, b: Seq<char>)
    requires
        tab_free(a),
        tab_free(b),
    ensures
        tab_free(a + b),
{
    assert forall|k: int| 0 <= k < (a + b).len() implies #[trigger] (a + b)[k] != '\t' by {
        if k < a.len() {
            assert((a + b)[k] == a[k]);
        } else {
            assert((a + b)[k] == b[k - a.len()]);
        }
    }
}

/// Parts without tabs, joined by a separator without tabs, give a text
/// without tabs.
pub proof fn lemma_join_tab_free(parts: Seq<Seq<char>>, sep: Seq<char>)
    requires
        tab_free(sep),
        forall|k: int| 0 <= k < parts.len() ==> tab_free(#[trigger] parts[k]),
    ensures
        tab_free(join_spec(parts, sep)),
    decreases parts.len(),
{
    if parts.len() > 1 {
        let rest = parts.drop_last();
        assert forall|k: int| 0 <= k < rest.len() implies tab_free(#[trigger] rest[k]) by {
            assert(rest[k] == parts[k]);
        }
        lemma_join_tab_free(rest, sep);
        let a = join_spec(rest, sep);
        let l = parts.last();
        assert(tab_free(l)) by {
            assert(l == parts[parts.len() - 1]);
        }
        let j = a + sep + l;
        assert forall|k: int| 0 <= k < j.len() implies #[trigger] j[k] != '\t' by {
            if k < a.len() {
                assert(j[k] == a[k]);
            } else if k < a.len() + sep.len() {
                assert(j[k] == sep[k - a.len()]);
            } else {
                assert(j[k] == l[k - a.len() - sep.len()]);
            }
        }
    } else if parts.len() == 1 {
        assert(tab_free(parts[0]));
    }
}

proof fn lemma_interleave_tab_free(s: Seq<char>, rep: Seq<char>)
    requires
        tab_free(s),
        tab_free(rep),
    ensures
        tab_free(interleave(s, rep)),
    decreases s.len(),
{
    if s.len() > 0 {
        lemma_interleave_tab_free(s.drop_first(), rep);
        let t = interleave(s.drop_first(), rep);
        let r = rep + seq![s[0]] + t;
        assert forall|k: int| 0 <= k < r.len() implies #[trigger] r[k] != '\t' by {
            if k < rep.len() {
                assert(r[k] == rep[k]);
            } else if k == rep.len() {
                assert(r[k] == s[0]);
            } else {
                assert(r[k] == t[k - rep.len() - 1]);
                assert(s.drop_first().len() < s.len());
            }
        }
    }
}

proof fn lemma_replace_nonempty_tab_free(s: Seq<char>, pat: Seq<char>, rep: Seq<char>)
    requires
        tab_free(s),
        tab_free(rep),
    ensures
        tab_free(replace_nonempty(s, pat, rep)),
    decreases s.len(),
{
    if pat.len() == 0 || s.len() < pat.len() {
    } else if s.subrange(0, pat.len() as int) == pat {
        let tail = s.subrange(pat.len() as int, s.len() as int);
        assert forall|k: int| 0 <= k < tail.len() implies #[trigger] tail[k] != '\t' by {
            assert(tail[k] == s[k + pat.len()]);
        }
        lemma_replace_nonempty_tab_free(tail, pat, rep);
        let t = replace_nonempty(tail, pat, rep);
        let r = rep + t;
        assert forall|k: int| 0 <= k < r.len() implies #[trigger] r[k] != '\t' by {
            if k < rep.len() {
                assert(r[k] == rep[k]);
            } else {
                assert(r[k] == t[k - rep.len()]);
            }
        }
    } else {
        let tail = s.drop_first();
        assert forall|k: int| 0 <= k < tail.len() implies #[trigger] tail[k] != '\t' by {
            assert(tail[k] == s[k + 1]);
        }
        lemma_replace_nonempty_tab_free(tail, pat, rep);
        let t = replace_nonempty(tail, pat, rep);
        let r = seq![s[0]] + t;
        assert forall|k: int| 0 <= k < r.len() implies #[trigger] r[k] != '\t' by {
            if k == 0 {
                assert(r[k] == s[0]);
            } else {
                assert(r[k] == t[k - 1]);
            }
        }
    }
}

/// A text in which a non-empty pattern does not occur is left as it is by
/// replacing that pattern.
pub proof fn lemma_replace_absent(s: Seq<char>, pat: Seq<char>, rep: Seq<char>)
    requires
        pat.len() > 0,
        !contains_spec(s, pat),
    ensures
        replace_spec(s, pat, rep) == s,
    decreases s.len(),
{
    if s.len() >= pat.len() {
        assert(s.subrange(0, pat.len() as int) != pat) by {
            if s.subrange(0, pat.len() as int) == pat {
                assert(occurs_at(s, pat, 0));
            }
        }
        let t = s.drop_first();
        assert(!contains_spec(t, pat)) by {
            if contains_spec(t, pat) {
                let i = choose|i: int| occurs_at(t, pat, i);
                assert(s.subrange(i + 1, i + 1 + pat.len()) == t.subrange(i, i + pat.len()));
                assert(occurs_at(s, pat, i + 1));
            }
        }
        lemma_replace_absent(t, pat, rep);
        assert(seq![s[0]] + t == s);
    }
}

/// Replacing in a text without tabs by a text without tabs gives a text
/// without tabs.
pub proof fn lemma_replace_tab_free(s: Seq<char>, pat: Seq<char>, rep: Seq<char>)
    requires
        tab_free(s),
        tab_free(rep),
    ensures
        tab_free(replace_spec(s, pat, rep)),
{
    if pat.len() == 0 {
        lemma_interleave_tab_free(s, rep);
    } else {
        lemma_replace_nonempty_tab_free(s, pat, rep);
    }
}

/// The decimal text of an integer is a sign and digits: no tab.
pub proof fn lemma_decimal_tab_free(n: int)
    ensures
        tab_free(decimal(n)),
{
    let m: nat = if n < 0 { (-n) as nat } else { n as nat };
    lemma_digits_spec(m);
    let d = digits_spec(m);
    let s = decimal(n);
    assert forall|k: int| 0 <= k < s.len() implies #[trigger] s[k] != '\t' by {
        if n < 0 {
            if k > 0 {
                assert(s[k] == d[k - 1]);
            }
        } else {
            assert(s[k] == d[k]);
        }
    }
}

} // verus!
