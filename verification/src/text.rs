//! Strings as sequences of characters: searching, splitting, trimming and spelling numbers.

use vstd::prelude::*;
use vstd::utf8::*;

verus! {

/// `String::push` appends one character at the end of the string.
pub assume_specification[ String::push ](s: &mut String, c: char)
    ensures
        final(s)@ == old(s)@.push(c),
;

// ---------------------------------------------------------------------------
// Characters
// ---------------------------------------------------------------------------

/// The code points with the Unicode property `White_Space`.
pub open spec fn is_white_space(c: char) -> bool {
    let u = c as u32;
    ||| 0x9 <= u <= 0xd
    ||| u == 0x20
    ||| u == 0x85
    ||| u == 0xa0
    ||| u == 0x1680
    ||| 0x2000 <= u <= 0x200a
    ||| u == 0x2028
    ||| u == 0x2029
    ||| u == 0x202f
    ||| u == 0x205f
    ||| u == 0x3000
}

/// Whether `c` is white space.
pub fn white_space(c: char) -> (r: bool)
    ensures
        r == is_white_space(c),
{
    let u: u32 = c as u32;
    (0x9 <= u && u <= 0xd) || u == 0x20 || u == 0x85 || u == 0xa0 || u == 0x1680 || (0x2000 <= u
        && u <= 0x200a) || u == 0x2028 || u == 0x2029 || u == 0x202f || u == 0x205f || u == 0x3000
}

/// An ASCII letter.
pub open spec fn is_letter(c: char) -> bool {
    'a' <= c <= 'z' || 'A' <= c <= 'Z'
}

/// A decimal digit.
pub open spec fn is_digit(c: char) -> bool {
    '0' <= c <= '9'
}

/// The digit that stands for `d`, for `d` below ten.
pub open spec fn digit_char(d: nat) -> char {
    (48 + d) as char
}

/// The lower-case hexadecimal digit that stands for `d`, for `d` below sixteen.
pub open spec fn hex_char(d: nat) -> char {
    if d < 10 {
        (48 + d) as char
    } else {
        (87 + d) as char
    }
}

// ---------------------------------------------------------------------------
// Conversions
// ---------------------------------------------------------------------------

/// The characters of `s`.
pub fn chars_of(s: &str) -> (r: Vec<char>)
    ensures
        r@ == s@,
{
    let mut r: Vec<char> = Vec::new();
    for c in it: s.chars()
        invariant
            r@ == s@.take(it.index() as int),
            it.seq() == s@,
    {
        r.push(c);
        assert(r@ == s@.take(it.index() as int + 1));
    }
    assert(s@.take(s@.len() as int) == s@);
    r
}

/// The string made of `v[from..to]`.
pub fn string_of(v: &[char], from: usize, to: usize) -> (r: String)
    requires
        from <= to <= v@.len(),
    ensures
        r@ == v@.subrange(from as int, to as int),
{
    let mut r: String = String::new();
    for i in from..to
        invariant
            from <= to <= v@.len(),
            r@ == v@.subrange(from as int, i as int),
    {
        r.push(v[i]);
        assert(r@ == v@.subrange(from as int, i as int + 1));
    }
    r
}

/// Whether two strings hold the same characters.
pub fn same(a: &str, b: &str) -> (r: bool)
    ensures
        r == (a@ == b@),
{
    let x: Vec<char> = chars_of(a);
    let y: Vec<char> = chars_of(b);
    if x.len() != y.len() {
        return false;
    }
    for i in 0..x.len()
        invariant
            x@ == a@,
            y@ == b@,
            x@.len() == y@.len(),
            forall|j: int| 0 <= j < i ==> x@[j] == y@[j],
    {
        if x[i] != y[i] {
            return false;
        }
    }
    assert(a@ =~= b@);
    true
}

/// The views of a list of strings.
pub open spec fn views(v: Seq<String>) -> Seq<Seq<char>> {
    v.map_values(|s: String| s@)
}

/// The characters of an optional string.
pub open spec fn opt_view(s: Option<String>) -> Option<Seq<char>> {
    match s {
        Some(t) => Some(t@),
        None => None,
    }
}

// ---------------------------------------------------------------------------
// Trimming
// ---------------------------------------------------------------------------

/// `s` without the white space in front.
pub open spec fn trim_front(s: Seq<char>) -> Seq<char>
    decreases s.len(),
{
    if s.len() > 0 && is_white_space(s[0]) {
        trim_front(s.skip(1))
    } else {
        s
    }
}

/// `s` without the white space at the end.
pub open spec fn trim_back(s: Seq<char>) -> Seq<char>
    decreases s.len(),
{
    if s.len() > 0 && is_white_space(s.last()) {
        trim_back(s.drop_last())
    } else {
        s
    }
}

/// `s` without the white space around it.
pub open spec fn trimmed(s: Seq<char>) -> Seq<char> {
    trim_back(trim_front(s))
}

/// `s` without the white space around it.
pub fn trim(s: &str) -> (r: String)
    ensures
        r@ == trimmed(s@),
{
    let v: Vec<char> = chars_of(s);
    let n: usize = v.len();
    let mut from: usize = 0;
    assert(v@.skip(0) == v@);
    while from < n && white_space(v[from])
        invariant
            from <= n,
            n == v@.len(),
            trim_front(v@) == trim_front(v@.skip(from as int)),
        decreases n - from,
    {
        assert(v@.skip(from as int).skip(1) == v@.skip(from as int + 1));
        from = from + 1;
    }
    let ghost front = v@.skip(from as int);
    assert(trim_front(v@) == front);
    let mut to: usize = n;
    assert(v@.subrange(from as int, n as int) == front);
    while to > from && white_space(v[to - 1])
        invariant
            from <= to <= n,
            n == v@.len(),
            trim_back(front) == trim_back(v@.subrange(from as int, to as int)),
        decreases to,
    {
        assert(v@.subrange(from as int, to as int).drop_last() == v@.subrange(
            from as int,
            to as int - 1,
        ));
        to = to - 1;
    }
    string_of(v.as_slice(), from, to)
}

/// Text that starts and ends in something visible is its own trimmed form.
pub proof fn lemma_trimmed_unchanged(s: Seq<char>)
    requires
        s.len() > 0 ==> !is_white_space(s[0]) && !is_white_space(s.last()),
    ensures
        trimmed(s) == s,
{
}

/// What is cut off by trimming is white space, and what is left begins and ends in something
/// visible.
pub proof fn trimmed_has_visible_ends(s: Seq<char>)
    ensures
        exists|from: int, to: int|
            #![trigger s.subrange(from, to)]
            0 <= from <= to <= s.len() && trimmed(s) == s.subrange(from, to) && (forall|i: int|
                0 <= i < s.len() && !(from <= i < to) ==> is_white_space(#[trigger] s[i])),
        trimmed(s).len() > 0 ==> !is_white_space(trimmed(s)[0]) && !is_white_space(
            trimmed(s).last(),
        ),
{
    let from = lemma_trim_front(s);
    let front = s.skip(from);
    let n = lemma_trim_back(front);
    let to = from + n;
    assert(front.take(n) == s.subrange(from, to));
    assert forall|i: int| 0 <= i < s.len() && !(from <= i < to) implies is_white_space(
        #[trigger] s[i],
    ) by {
        if i >= to {
            assert(front[i - from] == s[i]);
        }
    }
}

/// White space around a text does not matter.
pub proof fn white_space_around_is_cut_off(front: Seq<char>, s: Seq<char>, back: Seq<char>)
    requires
        forall|i: int| 0 <= i < front.len() ==> is_white_space(#[trigger] front[i]),
        forall|i: int| 0 <= i < back.len() ==> is_white_space(#[trigger] back[i]),
    ensures
        trimmed(front + s + back) == trimmed(s),
{
    let all = front + s + back;
    let a = lemma_trim_front(all);
    let b = lemma_trim_front(s);
    let n = front.len() as int;
    let m = n + s.len();
    if b < s.len() {
        // the first visible character is the same one
        if a < n {
            assert(all[a] == front[a]);
        } else if a - n < b {
            assert(all[a] == s[a - n]);
        } else if a - n > b {
            assert(all[n + b] == s[b]);
        }
        assert(a == n + b);
        let x = all.skip(a);
        let y = s.skip(b);
        assert(x == y + back);
        let p = lemma_trim_back(x);
        let q = lemma_trim_back(y);
        assert(q > 0) by {
            if q == 0 {
                assert(is_white_space(y[0]));
            }
        }
        if p > y.len() {
            assert(x[p - 1] == back[p - 1 - y.len()]);
        } else if p > q {
            assert(x[p - 1] == y[p - 1]);
        } else if p < q {
            assert(x[q - 1] == y[q - 1]);
            assert(is_white_space(x[q - 1]));
        }
        assert(x.take(p) == y.take(q));
    } else {
        // nothing is visible
        if a < all.len() {
            if a < n {
                assert(all[a] == front[a]);
            } else if a < m {
                assert(all[a] == s[a - n]);
            } else {
                assert(all[a] == back[a - m]);
            }
        }
        assert(all.skip(a) == s.skip(b));
    }
}

/// Where trimming the front stops.
proof fn lemma_trim_front(s: Seq<char>) -> (from: int)
    ensures
        0 <= from <= s.len(),
        trim_front(s) == s.skip(from),
        forall|i: int| 0 <= i < from ==> is_white_space(#[trigger] s[i]),
        from < s.len() ==> !is_white_space(s[from]),
    decreases s.len(),
{
    if s.len() > 0 && is_white_space(s[0]) {
        let rest = s.skip(1);
        let k = lemma_trim_front(rest);
        assert(rest.skip(k) == s.skip(k + 1));
        assert forall|i: int| 0 <= i < k + 1 implies is_white_space(#[trigger] s[i]) by {
            if i > 0 {
                assert(rest[i - 1] == s[i]);
            }
        }
        k + 1
    } else {
        assert(s.skip(0) == s);
        0
    }
}

/// Where trimming the back stops.
proof fn lemma_trim_back(s: Seq<char>) -> (to: int)
    ensures
        0 <= to <= s.len(),
        trim_back(s) == s.take(to),
        forall|i: int| to <= i < s.len() ==> is_white_space(#[trigger] s[i]),
        to > 0 ==> !is_white_space(s[to - 1]),
    decreases s.len(),
{
    if s.len() > 0 && is_white_space(s.last()) {
        let rest = s.drop_last();
        let k = lemma_trim_back(rest);
        assert(rest.take(k) == s.take(k));
        assert forall|i: int| k <= i < s.len() implies is_white_space(#[trigger] s[i]) by {
            if i < rest.len() {
                assert(rest[i] == s[i]);
            }
        }
        k
    } else {
        assert(s.take(s.len() as int) == s);
        s.len() as int
    }
}

// ---------------------------------------------------------------------------
// Searching and splitting
// ---------------------------------------------------------------------------

/// The place of the first `c` in `s`, or the length of `s` where there is none.
pub open spec fn find(s: Seq<char>, c: char) -> int
    decreases s.len(),
{
    if s.len() == 0 || s[0] == c {
        0
    } else {
        1 + find(s.skip(1), c)
    }
}

/// What `find` says of the text in front of the place it gives.
pub proof fn lemma_find(s: Seq<char>, c: char)
    ensures
        0 <= find(s, c) <= s.len(),
        find(s, c) < s.len() ==> s[find(s, c)] == c,
        forall|j: int| 0 <= j < find(s, c) ==> s[j] != c,
        find(s, c) == s.len() <==> !s.contains(c),
    decreases s.len(),
{
    if s.len() > 0 && s[0] != c {
        let t = s.skip(1);
        lemma_find(t, c);
        assert forall|j: int| 0 <= j < find(s, c) implies s[j] != c by {
            if j > 0 {
                assert(s[j] == t[j - 1]);
            }
        }
        if s.contains(c) {
            let k = choose|k: int| 0 <= k < s.len() && s[k] == c;
            assert(t[k - 1] == c);
        }
        if t.contains(c) {
            let k = choose|k: int| 0 <= k < t.len() && t[k] == c;
            assert(s[k + 1] == c);
        }
    } else if s.len() > 0 {
        assert(s[0] == c);
    }
}

/// `find` gives the only place with that property.
pub proof fn lemma_find_at(s: Seq<char>, c: char, k: int)
    requires
        0 <= k <= s.len(),
        k < s.len() ==> s[k] == c,
        forall|j: int| 0 <= j < k ==> s[j] != c,
    ensures
        find(s, c) == k,
{
    lemma_find(s, c);
    if find(s, c) < k {
        assert(s[find(s, c)] != c);
    }
    if k < find(s, c) {
        assert(s[k] != c);
    }
}

/// The parts of `s` between the separators.
pub open spec fn split(s: Seq<char>, sep: char) -> Seq<Seq<char>>
    decreases s.len(),
    via split_decreases
{
    let k = find(s, sep);
    if k < s.len() {
        seq![s.take(k)] + split(s.skip(k + 1), sep)
    } else {
        seq![s]
    }
}

#[via_fn]
proof fn split_decreases(s: Seq<char>, sep: char) {
    lemma_find(s, sep);
}

/// The parts one after the other, with a separator between each two.
pub open spec fn join(parts: Seq<Seq<char>>, sep: char) -> Seq<char>
    decreases parts.len(),
{
    if parts.len() == 0 {
        Seq::empty()
    } else if parts.len() == 1 {
        parts[0]
    } else {
        parts[0].push(sep) + join(parts.skip(1), sep)
    }
}

/// No part holds the separator.
pub open spec fn free_of(parts: Seq<Seq<char>>, sep: char) -> bool {
    forall|i: int| 0 <= i < parts.len() ==> !(#[trigger] parts[i]).contains(sep)
}

/// Splitting what was joined gives the parts back.
pub proof fn split_of_join(parts: Seq<Seq<char>>, sep: char)
    requires
        parts.len() > 0,
        free_of(parts, sep),
    ensures
        split(join(parts, sep), sep) == parts,
    decreases parts.len(),
{
    let p = parts[0];
    lemma_find(p, sep);
    if parts.len() == 1 {
        assert(split(p, sep) == seq![p]);
        assert(parts == seq![p]);
    } else {
        let rest = parts.skip(1);
        assert(free_of(rest, sep)) by {
            assert forall|i: int| 0 <= i < rest.len() implies !(#[trigger] rest[i]).contains(
                sep,
            ) by {
                assert(rest[i] == parts[i + 1]);
            }
        }
        split_of_join(rest, sep);
        let s = join(parts, sep);
        let n = p.len() as int;
        assert forall|j: int| 0 <= j < n implies s[j] != sep by {
            assert(s[j] == p[j]);
            assert(p.contains(p[j]));
        }
        lemma_find_at(s, sep, n);
        assert(s.take(n) == p);
        assert(s.skip(n + 1) == join(rest, sep));
        assert(parts == seq![p] + rest);
    }
}

/// Joining what was split gives the text back, and no part holds the separator.
pub proof fn join_of_split(s: Seq<char>, sep: char)
    ensures
        split(s, sep).len() > 0,
        free_of(split(s, sep), sep),
        join(split(s, sep), sep) == s,
    decreases s.len(),
{
    lemma_find(s, sep);
    let k = find(s, sep);
    if k < s.len() {
        let rest = s.skip(k + 1);
        join_of_split(rest, sep);
        let parts = split(s, sep);
        assert(parts.skip(1) == split(rest, sep));
        assert(s == s.take(k).push(sep) + rest);
        assert forall|i: int| 0 <= i < parts.len() implies !(#[trigger] parts[i]).contains(
            sep,
        ) by {
            if i == 0 {
                assert(parts[0] == s.take(k));
            } else {
                assert(parts[i] == split(rest, sep)[i - 1]);
            }
        }
    }
}

/// One part joined is that part; the parts of two lists joined are those of the first and those
/// of the second with a separator between them.
pub proof fn join_is_piece_by_piece(part: Seq<char>, a: Seq<Seq<char>>, b: Seq<Seq<char>>, sep: char)
    ensures
        join(seq![part], sep) == part,
        a.len() > 0 && b.len() > 0 ==> join(a + b, sep) == join(a, sep) + seq![sep] + join(b, sep),
    decreases a.len(),
{
    if a.len() > 0 && b.len() > 0 {
        if a.len() == 1 {
            assert((a + b).skip(1) == b);
            assert(join(a + b, sep) == a[0].push(sep) + join(b, sep));
            assert(a[0].push(sep) + join(b, sep) == a[0] + seq![sep] + join(b, sep));
        } else {
            let rest = a.skip(1);
            join_is_piece_by_piece(part, rest, b, sep);
            assert((a + b).skip(1) == rest + b);
            let x = a[0].push(sep);
            assert(x + (join(rest, sep) + seq![sep] + join(b, sep)) == (x + join(rest, sep)) + seq![
                sep,
            ] + join(b, sep));
        }
    }
}

/// Joined parts of which the last one is empty end in a separator.
pub proof fn lemma_join_ends(parts: Seq<Seq<char>>, sep: char)
    requires
        parts.len() >= 2,
        parts.last().len() == 0,
    ensures
        join(parts, sep).len() > 0,
        join(parts, sep).last() == sep,
    decreases parts.len(),
{
    let rest = parts.skip(1);
    assert(rest.last() == parts.last());
    if parts.len() > 2 {
        lemma_join_ends(rest, sep);
    } else {
        assert(join(rest, sep) == parts.last());
    }
}

/// The parts of `s` between the separators.
pub fn split_text(s: &str, sep: char) -> (r: Vec<String>)
    ensures
        views(r@) == split(s@, sep),
{
    let v: Vec<char> = chars_of(s);
    let mut r: Vec<String> = Vec::new();
    let mut from: usize = 0;
    let mut i: usize = 0;
    assert(v@.skip(0) == v@);
    while i < v.len()
        invariant
            from <= i <= v@.len(),
            v@ == s@,
            forall|j: int| from <= j < i ==> v@[j] != sep,
            views(r@) + split(v@.skip(from as int), sep) == split(s@, sep),
        decreases v.len() - i,
    {
        if v[i] == sep {
            let part: String = string_of(v.as_slice(), from, i);
            proof {
                let t = v@.skip(from as int);
                lemma_find_at(t, sep, i - from);
                assert(t.take(i - from) == part@);
                assert(t.skip(i - from + 1) == v@.skip(i + 1));
                assert(views(r@.push(part)) == views(r@).push(part@));
                assert(views(r@).push(part@) + split(v@.skip(i + 1), sep) == views(r@) + (seq![
                    part@,
                ] + split(v@.skip(i + 1), sep)));
            }
            r.push(part);
            from = i + 1;
        }
        i = i + 1;
    }
    let part: String = string_of(v.as_slice(), from, v.len());
    proof {
        let t = v@.skip(from as int);
        lemma_find_at(t, sep, t.len() as int);
        assert(part@ == t);
        assert(views(r@.push(part)) == views(r@) + seq![part@]);
    }
    r.push(part);
    r
}

/// Appends the parts to `out`, with a separator between each two.
pub fn push_joined(out: &mut String, parts: &Vec<String>, sep: char)
    ensures
        final(out)@ == old(out)@ + join(views(parts@), sep),
{
    let ghost all = views(parts@);
    assert(all.skip(0) == all);
    let n: usize = parts.len();
    for i in 0..n
        invariant
            n == parts@.len(),
            all == views(parts@),
            i < n ==> out@ + join(all.skip(i as int), sep) == old(out)@ + join(all, sep),
            i == n ==> n > 0 ==> out@ == old(out)@ + join(all, sep),
            n == 0 ==> out@ == old(out)@,
    {
        let ghost before = out@;
        proof {
            let t = all.skip(i as int);
            assert(t[0] == parts@[i as int]@);
            assert(t.skip(1) == all.skip(i + 1));
        }
        out.append(parts[i].as_str());
        if i + 1 < n {
            out.push(sep);
            assert(out@ == before + parts@[i as int]@.push(sep));
            assert(out@ + join(all.skip(i + 1), sep) == before + (parts@[i as int]@.push(sep)
                + join(all.skip(i + 1), sep)));
        }
    }
    assert(n == 0 ==> join(all, sep) == Seq::<char>::empty());
}

/// Whether `s` begins with `head`.
pub fn starts_with(s: &str, head: &str) -> (r: bool)
    ensures
        r == head@.is_prefix_of(s@),
{
    let v: Vec<char> = chars_of(s);
    let h: Vec<char> = chars_of(head);
    if h.len() > v.len() {
        return false;
    }
    for i in 0..h.len()
        invariant
            v@ == s@,
            h@ == head@,
            h@.len() <= v@.len(),
            forall|j: int| 0 <= j < i ==> h@[j] == v@[j],
    {
        if v[i] != h[i] {
            assert(s@.subrange(0, head@.len() as int)[i as int] == s@[i as int]);
            return false;
        }
    }
    assert(head@ =~= s@.subrange(0, head@.len() as int));
    true
}

/// Whether `s` ends in `tail`.
pub fn ends_with(s: &str, tail: &str) -> (r: bool)
    ensures
        r == tail@.is_suffix_of(s@),
{
    let v: Vec<char> = chars_of(s);
    let t: Vec<char> = chars_of(tail);
    if t.len() > v.len() {
        return false;
    }
    let d: usize = v.len() - t.len();
    for i in 0..t.len()
        invariant
            v@ == s@,
            t@ == tail@,
            d + t@.len() == v.len(),
            forall|j: int| 0 <= j < i ==> t@[j] == v@[d + j],
    {
        if v[d + i] != t[i] {
            assert(s@.subrange(d as int, s@.len() as int)[i as int] == s@[d + i]);
            return false;
        }
    }
    assert(tail@ =~= s@.subrange(d as int, s@.len() as int));
    true
}

// ---------------------------------------------------------------------------
// Positions counted in UTF-8 bytes
// ---------------------------------------------------------------------------

/// How many bytes `c` takes in UTF-8.
pub open spec fn utf8_width(c: char) -> nat {
    encode_scalar(c as u32).len()
}

/// The characters of `t` that fill the first `n` bytes of its UTF-8 form exactly.
pub open spec fn take_bytes(t: Seq<char>, n: int) -> Option<Seq<char>>
    decreases t.len(),
{
    if n == 0 {
        Some(Seq::empty())
    } else if n < 0 || t.len() == 0 {
        None
    } else {
        match take_bytes(t.skip(1), n - utf8_width(t[0])) {
            Some(p) => Some(seq![t[0]] + p),
            None => None,
        }
    }
}

/// How many bytes `c` takes in UTF-8.
fn width_of(c: char) -> (r: usize)
    ensures
        r == utf8_width(c),
        1 <= r <= 4,
{
    broadcast use char_is_scalar;

    let u: u32 = c as u32;
    if u <= 0x7f {
        1
    } else if u <= 0x7ff {
        2
    } else if u <= 0xffff {
        3
    } else {
        4
    }
}

/// The first `n` bytes of `t`, or all of it where they do not end between two characters.
pub open spec fn clipped(t: Seq<char>, n: int) -> Seq<char> {
    match take_bytes(t, n) {
        Some(p) => p,
        None => t,
    }
}

/// The first `n` bytes of `t`, or all of it where they do not end between two characters.
pub fn clip(t: &str, n: usize) -> (r: String)
    ensures
        r@ == clipped(t@, n as int),
{
    let v: Vec<char> = chars_of(t);
    let mut left: usize = n;
    let mut i: usize = 0;
    assert(v@.skip(0) == v@);
    proof {
        let x = take_bytes(v@, n as int);
        assert(x matches Some(p) ==> v@.take(0) + p == p);
    }
    while i < v.len() && left > 0
        invariant
            i <= v@.len(),
            v@ == t@,
            take_bytes(t@, n as int) == (match take_bytes(v@.skip(i as int), left as int) {
                Some(p) => Some(v@.take(i as int) + p),
                None => None,
            }),
        decreases v.len() - i,
    {
        let ghost s = v@.skip(i as int);
        assert(s.skip(1) == v@.skip(i + 1));
        assert(s[0] == v@[i as int]);
        let w: usize = width_of(v[i]);
        if w > left {
            return t.to_owned();
        }
        proof {
            match take_bytes(s.skip(1), left - w) {
                Some(p) => {
                    assert(v@.take(i as int) + (seq![s[0]] + p) == v@.take(i + 1) + p);
                },
                None => {},
            }
        }
        left = left - w;
        i = i + 1;
    }
    if left == 0 {
        assert(v@.take(i as int) + Seq::<char>::empty() == v@.take(i as int));
        assert(v@.subrange(0, i as int) == v@.take(i as int));
        string_of(v.as_slice(), 0, i)
    } else {
        t.to_owned()
    }
}

/// The beginning of a text that takes `n` bytes is what the text is clipped to; a text no
/// beginning of which takes `n` bytes is left as it is.
pub proof fn clipping_counts_bytes(t: Seq<char>, k: int, n: int)
    ensures
        0 <= k <= t.len() && encode_utf8(t.take(k)).len() == n ==> clipped(t, n) == t.take(k),
        (forall|j: int| 0 <= j <= t.len() ==> encode_utf8(#[trigger] t.take(j)).len() != n)
            ==> clipped(t, n) == t,
{
    if 0 <= k <= t.len() && encode_utf8(t.take(k)).len() == n {
        lemma_takes_bytes(t, k);
    }
    if forall|j: int| 0 <= j <= t.len() ==> encode_utf8(#[trigger] t.take(j)).len() != n {
        if let Some(p) = take_bytes(t, n) {
            lemma_bytes_taken(t, n);
            assert(t.take(p.len() as int) == p);
        }
    }
}

proof fn lemma_takes_bytes(t: Seq<char>, k: int)
    requires
        0 <= k <= t.len(),
    ensures
        take_bytes(t, encode_utf8(t.take(k)).len() as int) == Some(t.take(k)),
    decreases t.len(),
{
    let p = t.take(k);
    if k == 0 {
        assert(p == Seq::<char>::empty());
    } else {
        let s = t.skip(1);
        lemma_takes_bytes(s, k - 1);
        assert(p.drop_first() == s.take(k - 1));
        assert(p[0] == t[0]);
        assert(encode_utf8(p) == encode_scalar(p[0] as u32) + encode_utf8(p.drop_first()));
        assert(seq![t[0]] + s.take(k - 1) == p);
    }
}

proof fn lemma_bytes_taken(t: Seq<char>, n: int)
    requires
        take_bytes(t, n) is Some,
    ensures
        ({
            let p = take_bytes(t, n)->0;
            &&& p.len() <= t.len()
            &&& p == t.take(p.len() as int)
            &&& encode_utf8(p).len() == n
        }),
    decreases t.len(),
{
    let p = take_bytes(t, n)->0;
    if n == 0 {
        assert(t.take(0) == p);
    } else {
        let s = t.skip(1);
        let w = n - utf8_width(t[0]);
        lemma_bytes_taken(s, w);
        let q = take_bytes(s, w)->0;
        assert(p.drop_first() == q);
        assert(p == t.take(p.len() as int));
    }
}

/// Text that fills the first `n` bytes does so with anything behind it.
pub proof fn lemma_take_bytes_longer(t: Seq<char>, rest: Seq<char>, n: int)
    requires
        take_bytes(t, n) == Some(t),
    ensures
        take_bytes(t + rest, n) == Some(t),
    decreases t.len(),
{
    if n != 0 {
        let s = t.skip(1);
        let w = n - utf8_width(t[0]);
        let p = take_bytes(s, w)->0;
        assert((seq![t[0]] + p).skip(1) == p);
        assert(p == s);
        lemma_take_bytes_longer(s, rest, w);
        assert((t + rest).skip(1) == s + rest);
        assert((t + rest)[0] == t[0]);
    }
}

// ---------------------------------------------------------------------------
// Numbers
// ---------------------------------------------------------------------------

/// `n` in decimal.
pub open spec fn decimal(n: nat) -> Seq<char>
    decreases n,
{
    if n < 10 {
        seq![digit_char(n)]
    } else {
        decimal(n / 10).push(digit_char(n % 10))
    }
}

/// `n` in decimal, with a minus sign where it is negative.
pub open spec fn signed_decimal(n: int) -> Seq<char> {
    if n < 0 {
        seq!['-'] + decimal((-n) as nat)
    } else {
        decimal(n as nat)
    }
}

/// The last `width` hexadecimal digits of `n`, with zeros in front.
pub open spec fn hex(n: nat, width: nat) -> Seq<char>
    decreases width,
{
    if width == 0 {
        Seq::empty()
    } else {
        hex(n / 16, (width - 1) as nat).push(hex_char(n % 16))
    }
}

/// Appends `n` in decimal.
pub fn push_decimal(out: &mut String, n: u64)
    ensures
        final(out)@ == old(out)@ + decimal(n as nat),
    decreases n,
{
    if n >= 10 {
        push_decimal(out, n / 10);
    }
    let d: u8 = (n % 10) as u8;
    out.push((48 + d) as char);
    assert(n < 10 ==> old(out)@ + decimal(n as nat) == old(out)@.push(digit_char(n as nat)));
    assert(n >= 10 ==> old(out)@ + decimal((n / 10) as nat).push(digit_char((n % 10) as nat)) == (
    old(out)@ + decimal((n / 10) as nat)).push(digit_char((n % 10) as nat)));
}

/// `n` in decimal.
pub fn decimal_text(n: u64) -> (r: String)
    ensures
        r@ == decimal(n as nat),
{
    let mut r: String = String::new();
    push_decimal(&mut r, n);
    assert(Seq::<char>::empty() + decimal(n as nat) == decimal(n as nat));
    r
}

/// `n` in decimal, with a minus sign where it is negative.
pub fn signed_decimal_text(n: i64) -> (r: String)
    ensures
        r@ == signed_decimal(n as int),
{
    let mut r: String = String::new();
    if n < 0 {
        r.push('-');
        push_decimal(&mut r, (0 - (n as i128)) as u64);
        assert(r@ == signed_decimal(n as int));
    } else {
        push_decimal(&mut r, n as u64);
        assert(r@ == signed_decimal(n as int));
    }
    r
}

/// Appends the last `width` hexadecimal digits of `n`.
pub fn push_hex(out: &mut String, n: u64, width: usize)
    ensures
        final(out)@ == old(out)@ + hex(n as nat, width as nat),
    decreases width,
{
    if width > 0 {
        push_hex(out, n / 16, width - 1);
        let d: u8 = (n % 16) as u8;
        if d < 10 {
            out.push((48 + d) as char);
        } else {
            out.push((87 + d) as char);
        }
        assert(old(out)@ + hex((n / 16) as nat, (width - 1) as nat).push(
            hex_char((n % 16) as nat),
        ) == (old(out)@ + hex((n / 16) as nat, (width - 1) as nat)).push(
            hex_char((n % 16) as nat),
        ));
    } else {
        assert(old(out)@ + Seq::<char>::empty() == old(out)@);
    }
}

// ---------------------------------------------------------------------------
// Case and bytes
// ---------------------------------------------------------------------------

/// What `str::to_uppercase` makes of text that is not all ASCII.
pub uninterp spec fn unicode_uppercase(s: Seq<char>) -> Seq<char>;

/// An ASCII character with its case raised.
pub open spec fn raised(c: char) -> char {
    if 'a' <= c <= 'z' {
        (c as u32 - 32) as char
    } else {
        c
    }
}

/// The upper-case form of `s`.
pub open spec fn uppercase(s: Seq<char>) -> Seq<char> {
    if is_ascii_chars(s) {
        s.map_values(|c: char| raised(c))
    } else {
        unicode_uppercase(s)
    }
}

/// `str::to_uppercase` gives the Unicode upper-case form. Of ASCII text that is each letter
/// raised and everything else as it was; of other text it is a function of the text alone.
/// Every character becomes one or more characters, so text that is not empty stays so; nothing
/// more is said here of other text.
pub assume_specification[ str::to_uppercase ](s: &str) -> (r: String)
    ensures
        is_ascii_chars(s@) ==> r@ == s@.map_values(|c: char| raised(c)),
        !is_ascii_chars(s@) ==> r@ == unicode_uppercase(s@),
        s@.len() > 0 ==> r@.len() > 0,
;

/// The text that `String::from_utf8_lossy` makes of bytes that are not valid UTF-8.
pub uninterp spec fn repaired(bytes: Seq<u8>) -> Seq<char>;

/// The text in `bytes`.
pub open spec fn lossy(bytes: Seq<u8>) -> Seq<char> {
    if valid_utf8(bytes) {
        decode_utf8(bytes)
    } else {
        repaired(bytes)
    }
}

/// `String::from_utf8_lossy` decodes valid UTF-8; elsewhere it puts replacement characters
/// for what it cannot decode, which is a function of the bytes alone and not spelt out here.
#[verifier::external_body]
pub(crate) fn lossy_text(bytes: &[u8]) -> (r: String)
    ensures
        valid_utf8(bytes@) ==> r@ == decode_utf8(bytes@),
        !valid_utf8(bytes@) ==> r@ == repaired(bytes@),
{
    String::from_utf8_lossy(bytes).to_string()
}

// ---------------------------------------------------------------------------
// Laws
// ---------------------------------------------------------------------------

/// ASCII text in upper case has each letter from `a` to `z` replaced by the one from `A` to `Z`
/// in the same place of the alphabet, and everything else as it was; other text is what the
/// Unicode rules make of it.
pub proof fn upper_case_raises_letters(s: Seq<char>)
    ensures
        is_ascii_chars(s) ==> uppercase(s).len() == s.len() && forall|i: int|
            0 <= i < s.len() ==> #[trigger] uppercase(s)[i] == (if 'a' <= s[i] <= 'z' {
                ('A' as int + (s[i] as int - 'a' as int)) as char
            } else {
                s[i]
            }),
        !is_ascii_chars(s) ==> uppercase(s) == unicode_uppercase(s),
{
}

/// Bytes that are text are decoded, and other bytes are repaired.
pub proof fn bytes_are_decoded_or_repaired(s: Seq<char>, bytes: Seq<u8>)
    ensures
        lossy(encode_utf8(s)) == s,
        valid_utf8(bytes) ==> encode_utf8(lossy(bytes)) == bytes,
        !valid_utf8(bytes) ==> lossy(bytes) == repaired(bytes),
{
    broadcast use encode_utf8_valid_utf8, encode_utf8_decode_utf8, decode_utf8_encode_utf8;

}

/// The views of strings are their characters.
pub proof fn views_are_the_characters(v: Seq<String>, s: Option<String>)
    ensures
        views(v).len() == v.len(),
        forall|i: int| 0 <= i < v.len() ==> #[trigger] views(v)[i] == v[i]@,
        s is None <==> opt_view(s) is None,
        s is Some ==> opt_view(s)->0 == s->0@,
{
}

} // verus!
