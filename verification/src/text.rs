//! Character-level text helpers shared by the whole crate: ordering of names,
//! trimming, number rendering and column padding.

use vstd::prelude::*;

verus! {

// ── ordering ────────────────────────────────────────────────────────────────

/// Lexicographic comparison of `a` and `b` starting at position `i`, assuming
/// the two agree before `i`.
pub open spec fn lt_from(a: Seq<char>, b: Seq<char>, i: int) -> bool
    decreases a.len() - i,
{
    if i < 0 || i >= b.len() {
        false
    } else if i >= a.len() {
        true
    } else if a[i] != b[i] {
        (a[i] as int) < (b[i] as int)
    } else {
        lt_from(a, b, i + 1)
    }
}

/// Strict lexicographic order on character sequences, by code point. This is
/// the order `str` comparison gives (UTF-8 preserves code-point order).
pub open spec fn seq_lt(a: Seq<char>, b: Seq<char>) -> bool {
    lt_from(a, b, 0)
}

proof fn lemma_lt_from_irrefl(a: Seq<char>, i: int)
    requires
        0 <= i,
    ensures
        !lt_from(a, a, i),
    decreases a.len() - i,
{
    if i < a.len() {
        lemma_lt_from_irrefl(a, i + 1);
    }
}

proof fn lemma_lt_from_asym(a: Seq<char>, b: Seq<char>, i: int)
    requires
        0 <= i,
        lt_from(a, b, i),
    ensures
        !lt_from(b, a, i),
    decreases a.len() - i,
{
    if i < a.len() && i < b.len() && a[i] == b[i] {
        lemma_lt_from_asym(a, b, i + 1);
    }
}

proof fn lemma_lt_from_trans(a: Seq<char>, b: Seq<char>, c: Seq<char>, i: int)
    requires
        0 <= i,
        lt_from(a, b, i),
        lt_from(b, c, i),
    ensures
        lt_from(a, c, i),
    decreases a.len() - i,
{
    if i < a.len() && i < b.len() && i < c.len() && a[i] == b[i] && b[i] == c[i] {
        lemma_lt_from_trans(a, b, c, i + 1);
    }
}

proof fn lemma_lt_from_total(a: Seq<char>, b: Seq<char>, i: int)
    requires
        0 <= i <= a.len(),
        i <= b.len(),
        a.subrange(0, i) == b.subrange(0, i),
        !lt_from(a, b, i),
        !lt_from(b, a, i),
    ensures
        a == b,
    decreases a.len() - i,
{
    if i < a.len() && i < b.len() {
        assert(a.subrange(0, i + 1) =~= a.subrange(0, i).push(a[i]));
        assert(b.subrange(0, i + 1) =~= b.subrange(0, i).push(b[i]));
        lemma_lt_from_total(a, b, i + 1);
    } else {
        assert(a =~= a.subrange(0, i));
        assert(b =~= b.subrange(0, i));
    }
}

/// `seq_lt` is a strict total order.
pub proof fn lemma_seq_lt_order(a: Seq<char>, b: Seq<char>, c: Seq<char>)
    ensures
        !seq_lt(a, a),
        seq_lt(a, b) ==> !seq_lt(b, a),
        seq_lt(a, b) && seq_lt(b, c) ==> seq_lt(a, c),
        a != b ==> seq_lt(a, b) || seq_lt(b, a),
{
    lemma_lt_from_irrefl(a, 0);
    if seq_lt(a, b) {
        lemma_lt_from_asym(a, b, 0);
    }
    if seq_lt(a, b) && seq_lt(b, c) {
        lemma_lt_from_trans(a, b, c, 0);
    }
    if !seq_lt(a, b) && !seq_lt(b, a) {
        assert(a.subrange(0, 0) =~= b.subrange(0, 0));
        lemma_lt_from_total(a, b, 0);
    }
}

/// `a` and `b` agree on their first `i` characters.
pub open spec fn agree_upto(a: Seq<char>, b: Seq<char>, i: int) -> bool {
    forall|j: int| 0 <= j < i ==> a[j] == b[j]
}

/// `a` sorts before `b` in the order `String` comparison gives: either `a`
/// is a proper prefix of `b`, or at the first position where they differ
/// `a` has the smaller character.
pub open spec fn lexicographically_before(a: Seq<char>, b: Seq<char>) -> bool {
    ||| a.len() < b.len() && agree_upto(a, b, a.len() as int)
    ||| exists|i: int|
        0 <= i < a.len() && i < b.len() && #[trigger] agree_upto(a, b, i) && (a[i] as int) < (b[i] as int)
}

proof fn lemma_lt_from_lexicographic(a: Seq<char>, b: Seq<char>, i: int)
    requires
        0 <= i <= a.len(),
        i <= b.len(),
        agree_upto(a, b, i),
    ensures
        lt_from(a, b, i) <==> lexicographically_before(a, b),
    decreases a.len() - i,
{
    if i == b.len() {
        if lexicographically_before(a, b) {
            if !(a.len() < b.len() && agree_upto(a, b, a.len() as int)) {
                let j = choose|j: int|
                    0 <= j < a.len() && j < b.len() && #[trigger] agree_upto(a, b, j) && (a[j] as int) < (b[j] as int);
                assert(a[j] == b[j]);
            }
        }
    } else if i == a.len() {
        assert(a.len() < b.len() && agree_upto(a, b, a.len() as int));
    } else if a[i] != b[i] {
        if a.len() < b.len() && agree_upto(a, b, a.len() as int) {
            assert(a[i] == b[i]);
        }
        if (a[i] as int) < (b[i] as int) {
            assert(agree_upto(a, b, i));
        } else if lexicographically_before(a, b) {
            let j = choose|j: int|
                0 <= j < a.len() && j < b.len() && #[trigger] agree_upto(a, b, j) && (a[j] as int) < (b[j] as int);
            if j < i {
                assert(a[j] == b[j]);
            } else if j > i {
                assert(a[i] == b[i]);
            }
        }
    } else {
        assert(agree_upto(a, b, i + 1));
        lemma_lt_from_lexicographic(a, b, i + 1);
    }
}

/// `seq_lt` is the order `String` comparison gives: `a` comes first exactly
/// when it is a proper prefix of `b` or has the smaller character at the
/// first position where the two differ.
pub proof fn lemma_seq_lt_is_lexicographic(a: Seq<char>, b: Seq<char>)
    ensures
        seq_lt(a, b) <==> lexicographically_before(a, b),
{
    lemma_lt_from_lexicographic(a, b, 0);
}

/// A proper prefix sorts first: `"node1"` before `"node10"`.
pub proof fn lemma_prefix_sorts_first(a: Seq<char>, b: Seq<char>)
    requires
        a.len() < b.len(),
        a == b.subrange(0, a.len() as int),
    ensures
        seq_lt(a, b),
        !seq_lt(b, a),
{
    lemma_seq_lt_is_lexicographic(a, b);
    assert(agree_upto(a, b, a.len() as int));
    lemma_seq_lt_order(a, b, a);
}

/// The characters of `s`, one per element.
pub fn chars_of(s: &str) -> (v: Vec<char>)
    ensures
        v@ == s@,
{
    let n = s.unicode_len();
    let mut v: Vec<char> = Vec::new();
    let mut i: usize = 0;
    while i < n
        invariant
            n == s@.len(),
            i <= n,
            v@ == s@.subrange(0, i as int),
        decreases n - i,
    {
        v.push(s.get_char(i));
        i = i + 1;
    }
    v
}

/// `a < b` in lexicographic code-point order.
pub fn str_lt(a: &str, b: &str) -> (r: bool)
    ensures
        r == seq_lt(a@, b@),
{
    let x = chars_of(a);
    let y = chars_of(b);
    let mut i: usize = 0;
    while i < x.len() && i < y.len() && x[i] == y[i]
        invariant
            x@ == a@,
            y@ == b@,
            i <= x.len(),
            i <= y.len(),
            lt_from(a@, b@, 0) == lt_from(a@, b@, i as int),
        decreases x.len() - i,
    {
        i = i + 1;
    }
    if i == y.len() {
        false
    } else if i == x.len() {
        true
    } else {
        x[i] < y[i]
    }
}

/// `a == b` as character sequences.
pub fn str_eq(a: &str, b: &str) -> (r: bool)
    ensures
        r == (a@ == b@),
{
    let x = chars_of(a);
    let y = chars_of(b);
    if x.len() != y.len() {
        return false;
    }
    let mut i: usize = 0;
    while i < x.len()
        invariant
            x@ == a@,
            y@ == b@,
            x.len() == y.len(),
            i <= x.len(),
            forall|j: int| 0 <= j < i ==> x@[j] == y@[j],
        decreases x.len() - i,
    {
        if x[i] != y[i] {
            return false;
        }
        i = i + 1;
    }
    assert(a@ =~= b@);
    true
}

// ── whitespace and trimming ─────────────────────────────────────────────────

/// The Unicode `White_Space` property, which `char::is_whitespace` and
/// `str::trim` go by.
pub open spec fn is_white_space(c: char) -> bool {
    let u = c as u32;
    ||| 0x09 <= u <= 0x0D
    ||| u == 0x20
    ||| u == 0x85
    ||| u == 0xA0
    ||| u == 0x1680
    ||| 0x2000 <= u <= 0x200A
    ||| u == 0x2028
    ||| u == 0x2029
    ||| u == 0x202F
    ||| u == 0x205F
    ||| u == 0x3000
}

/// A string is blank when trimming it leaves nothing: every character is
/// white space.
pub open spec fn is_blank(s: Seq<char>) -> bool {
    forall|i: int| 0 <= i < s.len() ==> is_white_space(#[trigger] s[i])
}

pub fn is_white_space_char(c: char) -> (r: bool)
    ensures
        r == is_white_space(c),
{
    let u = c as u32;
    (0x09 <= u && u <= 0x0D) || u == 0x20 || u == 0x85 || u == 0xA0 || u == 0x1680 || (0x2000
        <= u && u <= 0x200A) || u == 0x2028 || u == 0x2029 || u == 0x202F || u == 0x205F || u
        == 0x3000
}

/// `s.trim().is_empty()`.
pub fn blank(s: &str) -> (r: bool)
    ensures
        r == is_blank(s@),
{
    let v = chars_of(s);
    let mut i: usize = 0;
    while i < v.len()
        invariant
            v@ == s@,
            i <= v.len(),
            forall|j: int| 0 <= j < i ==> is_white_space(#[trigger] v@[j]),
        decreases v.len() - i,
    {
        if !is_white_space_char(v[i]) {
            return false;
        }
        i = i + 1;
    }
    true
}

/// `s` with every trailing `/` removed (`trim_end_matches('/')`).
pub open spec fn trim_slashes(s: Seq<char>) -> Seq<char>
    decreases s.len(),
{
    if s.len() > 0 && s.last() == '/' {
        trim_slashes(s.drop_last())
    } else {
        s
    }
}

proof fn lemma_trim_slashes_prefix(s: Seq<char>, k: int)
    requires
        0 <= k <= s.len(),
        forall|j: int| k <= j < s.len() ==> s[j] == '/',
        k == 0 || s[k - 1] != '/',
    ensures
        trim_slashes(s) == s.subrange(0, k),
    decreases s.len(),
{
    if s.len() > k {
        lemma_trim_slashes_prefix(s.drop_last(), k);
        assert(s.drop_last().subrange(0, k) =~= s.subrange(0, k));
    } else {
        assert(s.subrange(0, k) =~= s);
    }
}

/// `s.trim_end_matches('/')`, as an owned string.
pub fn trim_trailing_slashes(s: &str) -> (r: String)
    ensures
        r@ == trim_slashes(s@),
{
    let v = chars_of(s);
    let mut k: usize = v.len();
    while k > 0 && v[k - 1] == '/'
        invariant
            v@ == s@,
            k <= v.len(),
            forall|j: int| k <= j < v.len() ==> v@[j] == '/',
        decreases k,
    {
        k = k - 1;
    }
    proof {
        lemma_trim_slashes_prefix(s@, k as int);
    }
    s.substring_char(0, k).to_string()
}

/// `s` without `suffix` when it ends with it (`strip_suffix`), else `None`.
pub open spec fn strip_suffix(s: Seq<char>, suffix: Seq<char>) -> Option<Seq<char>> {
    if suffix.len() <= s.len() && s.subrange(s.len() - suffix.len(), s.len() as int) == suffix {
        Some(s.subrange(0, s.len() - suffix.len()))
    } else {
        None
    }
}

pub fn strip_suffix_of(s: &str, suffix: &str) -> (r: Option<String>)
    ensures
        r matches Some(t) ==> strip_suffix(s@, suffix@) == Some(t@),
        r is None ==> strip_suffix(s@, suffix@) is None,
{
    let n = s.unicode_len();
    let m = suffix.unicode_len();
    if m > n {
        return None;
    }
    let tail = s.substring_char(n - m, n);
    if str_eq(tail, suffix) {
        Some(s.substring_char(0, n - m).to_string())
    } else {
        None
    }
}

// ── building text ──────────────────────────────────────────────────────────

pub fn append_str(dst: &mut String, piece: &str)
    ensures
        final(dst)@ == old(dst)@ + piece@,
{
    dst.append(piece);
}

/// `a` followed by `b`.
pub fn concat2(a: &str, b: &str) -> (r: String)
    ensures
        r@ == a@ + b@,
{
    let mut r = a.to_string();
    append_str(&mut r, b);
    r
}

/// `n` ASCII spaces.
pub open spec fn spaces(n: nat) -> Seq<char> {
    Seq::new(n, |i: int| ' ')
}

/// `s` left-aligned in a column `width` characters wide (`{:<width}`): padded
/// with spaces on the right, never truncated.
pub open spec fn pad_right(s: Seq<char>, width: nat) -> Seq<char> {
    if s.len() >= width {
        s
    } else {
        s + spaces((width - s.len()) as nat)
    }
}

/// A column only pads, it never cuts: the text is kept whole at the start,
/// followed by spaces up to the width.
pub proof fn lemma_pad_right_keeps_text(s: Seq<char>, width: nat)
    ensures
        pad_right(s, width).len() == (if s.len() >= width {
            s.len()
        } else {
            width
        }),
        pad_right(s, width).subrange(0, s.len() as int) == s,
        forall|i: int| s.len() <= i < pad_right(s, width).len() ==> #[trigger] pad_right(s, width)[i] == ' ',
{
    assert(pad_right(s, width).subrange(0, s.len() as int) =~= s);
}

/// Appends `s` left-aligned in a column `width` characters wide.
pub fn append_padded(dst: &mut String, s: &str, width: usize)
    ensures
        final(dst)@ == old(dst)@ + pad_right(s@, width as nat),
{
    append_str(dst, s);
    let n = s.unicode_len();
    let mut k: usize = n;
    while k < width
        invariant
            n == s@.len(),
            k >= n,
            n < width ==> k <= width,
            n >= width ==> k == n,
            dst@ == old(dst)@ + s@ + spaces((k - n) as nat),
        decreases width - k,
    {
        append_str(dst, " ");
        proof {
            reveal_strlit(" ");
        }
        assert(spaces((k + 1 - n) as nat) =~= spaces((k - n) as nat) + " "@);
        k = k + 1;
    }
    if n >= width {
        assert(spaces(0) =~= Seq::<char>::empty());
        assert(dst@ =~= old(dst)@ + s@);
    } else {
        assert(k == width);
        assert(dst@ =~= old(dst)@ + pad_right(s@, width as nat));
    }
}

/// The decimal digit for `d` (`0 <= d < 10`).
pub open spec fn digit_char(d: nat) -> char {
    if d == 0 {
        '0'
    } else if d == 1 {
        '1'
    } else if d == 2 {
        '2'
    } else if d == 3 {
        '3'
    } else if d == 4 {
        '4'
    } else if d == 5 {
        '5'
    } else if d == 6 {
        '6'
    } else if d == 7 {
        '7'
    } else if d == 8 {
        '8'
    } else if d == 9 {
        '9'
    } else if d == 10 {
        'a'
    } else if d == 11 {
        'b'
    } else if d == 12 {
        'c'
    } else if d == 13 {
        'd'
    } else if d == 14 {
        'e'
    } else {
        'f'
    }
}

fn digit_str(d: u64) -> (r: &'static str)
    requires
        d < 16,
    ensures
        r@ == seq![digit_char(d as nat)],
{
    proof {
        reveal_strlit("0");
        reveal_strlit("1");
        reveal_strlit("2");
        reveal_strlit("3");
        reveal_strlit("4");
        reveal_strlit("5");
        reveal_strlit("6");
        reveal_strlit("7");
        reveal_strlit("8");
        reveal_strlit("9");
        reveal_strlit("a");
        reveal_strlit("b");
        reveal_strlit("c");
        reveal_strlit("d");
        reveal_strlit("e");
        reveal_strlit("f");
    }
    let r = if d == 0 {
        "0"
    } else if d == 1 {
        "1"
    } else if d == 2 {
        "2"
    } else if d == 3 {
        "3"
    } else if d == 4 {
        "4"
    } else if d == 5 {
        "5"
    } else if d == 6 {
        "6"
    } else if d == 7 {
        "7"
    } else if d == 8 {
        "8"
    } else if d == 9 {
        "9"
    } else if d == 10 {
        "a"
    } else if d == 11 {
        "b"
    } else if d == 12 {
        "c"
    } else if d == 13 {
        "d"
    } else if d == 14 {
        "e"
    } else {
        "f"
    };
    assert(r@ =~= seq![digit_char(d as nat)]);
    r
}

/// The decimal rendering of `n`, as `{}` prints an unsigned integer.
pub open spec fn decimal(n: nat) -> Seq<char>
    decreases n,
{
    if n < 10 {
        seq![digit_char(n)]
    } else {
        decimal(n / 10).push(digit_char(n % 10))
    }
}

/// Appends the decimal rendering of `n`.
pub fn append_decimal(dst: &mut String, n: u64)
    ensures
        final(dst)@ == old(dst)@ + decimal(n as nat),
    decreases n,
{
    if n >= 10 {
        append_decimal(dst, n / 10);
    }
    append_str(dst, digit_str(n % 10));
    if n >= 10 {
        assert(final(dst)@ =~= old(dst)@ + decimal(n as nat)) by {
            assert(decimal(n as nat) == decimal((n / 10) as nat).push(digit_char((n % 10) as nat)));
        }
    } else {
        assert(final(dst)@ =~= old(dst)@ + decimal(n as nat));
    }
}

/// The lowest `width` hexadecimal digits of `n`, zero padded (`{:0width$x}`
/// for a value that fits).
pub open spec fn hex_fixed(n: nat, width: nat) -> Seq<char>
    decreases width,
{
    if width == 0 {
        Seq::empty()
    } else {
        hex_fixed(n / 16, (width - 1) as nat).push(digit_char(n % 16))
    }
}

/// Appends the lowest `width` hexadecimal digits of `n`, zero padded.
pub fn append_hex_fixed(dst: &mut String, n: u64, width: u64)
    ensures
        final(dst)@ == old(dst)@ + hex_fixed(n as nat, width as nat),
    decreases width,
{
    if width > 0 {
        append_hex_fixed(dst, n / 16, width - 1);
        append_str(dst, digit_str(n % 16));
        assert(final(dst)@ =~= old(dst)@ + hex_fixed(n as nat, width as nat)) by {
            assert(hex_fixed(n as nat, width as nat) == hex_fixed((n / 16) as nat, (width - 1) as nat).push(
                digit_char((n % 16) as nat),
            ));
        }
    } else {
        assert(final(dst)@ =~= old(dst)@ + hex_fixed(n as nat, width as nat));
    }
}

/// The elements of `parts` separated by `sep` (`join`).
pub open spec fn join(parts: Seq<Seq<char>>, sep: Seq<char>) -> Seq<char>
    decreases parts.len(),
{
    if parts.len() == 0 {
        Seq::empty()
    } else if parts.len() == 1 {
        parts[0]
    } else {
        join(parts.drop_last(), sep) + sep + parts.last()
    }
}

/// The character views of a vector of strings.
pub open spec fn views(v: Seq<String>) -> Seq<Seq<char>> {
    v.map_values(|s: String| s@)
}

/// `parts.join(sep)`.
pub fn join_strings(parts: &Vec<String>, sep: &str) -> (r: String)
    ensures
        r@ == join(views(parts@), sep@),
{
    let mut r = String::new();
    let mut i: usize = 0;
    while i < parts.len()
        invariant
            i <= parts.len(),
            r@ == join(views(parts@.subrange(0, i as int)), sep@),
        decreases parts.len() - i,
    {
        let ghost before = parts@.subrange(0, i as int);
        if i > 0 {
            append_str(&mut r, sep);
        }
        append_str(&mut r, parts[i].as_str());
        proof {
            let after = parts@.subrange(0, i + 1);
            assert(views(after).drop_last() =~= views(before));
            if i == 0 {
                assert(views(before) =~= Seq::<Seq<char>>::empty());
            }
        }
        i = i + 1;
    }
    assert(parts@.subrange(0, parts.len() as int) =~= parts@);
    r
}


/// `s` with trailing white space removed (`trim_end`).
pub open spec fn trim_end_white(s: Seq<char>) -> Seq<char>
    decreases s.len(),
{
    if s.len() > 0 && is_white_space(s.last()) {
        trim_end_white(s.drop_last())
    } else {
        s
    }
}

proof fn lemma_trim_end_white_prefix(s: Seq<char>, k: int)
    requires
        0 <= k <= s.len(),
        forall|j: int| k <= j < s.len() ==> is_white_space(#[trigger] s[j]),
        k == 0 || !is_white_space(s[k - 1]),
    ensures
        trim_end_white(s) == s.subrange(0, k),
    decreases s.len(),
{
    if s.len() > k {
        lemma_trim_end_white_prefix(s.drop_last(), k);
        assert(s.drop_last().subrange(0, k) =~= s.subrange(0, k));
    } else {
        assert(s.subrange(0, k) =~= s);
    }
}

/// `s.trim_end()`, as an owned string.
pub fn trim_end_white_space(s: &str) -> (r: String)
    ensures
        r@ == trim_end_white(s@),
{
    let v = chars_of(s);
    let mut k: usize = v.len();
    while k > 0 && is_white_space_char(v[k - 1])
        invariant
            v@ == s@,
            k <= v.len(),
            forall|j: int| k <= j < v.len() ==> is_white_space(#[trigger] v@[j]),
        decreases k,
    {
        k = k - 1;
    }
    proof {
        lemma_trim_end_white_prefix(s@, k as int);
    }
    s.substring_char(0, k).to_string()
}

} // verus!
