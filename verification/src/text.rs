//! Characters and strings: the few operations on text that the rest of the crate is written with.

use vstd::prelude::*;
use vstd::string::StringExecFns;

verus! {

/// `String::push` appends one character to the end of the string.
pub assume_specification[ String::push ](s: &mut String, c: char)
    ensures
        final(s)@ == old(s)@.push(c),
;

/// A text the way Rust's `Debug` writes a string: in quotes, with escapes.
pub uninterp spec fn debug_form(s: Seq<char>) -> Seq<char>;

/// Calls `Debug::fmt` of `str` through `format!`. What it writes depends on the string alone, and
/// nothing more is claimed of it.
#[verifier::external_body]
pub(crate) fn debug_text(s: &str) -> (r: String)
    ensures
        r@ == debug_form(s@),
{
    format!("{s:?}")
}

/// Whether a character has Unicode's `White_Space` property.
pub open spec fn is_white_space(c: char) -> bool {
    let u = c as u32;
    ||| 0x9 <= u <= 0xD
    ||| u == 0x20
    ||| u == 0x85
    ||| u == 0xA0
    ||| u == 0x1680
    ||| 0x2000 <= u <= 0x200A
    ||| u == 0x2028
    ||| u == 0x2029
    ||| u == 0x202F
    ||| u == 0x205F
    ||| u == 0x3000
}

/// Returns true if the character is white space.
pub fn white_space(c: char) -> (r: bool)
    ensures
        r == is_white_space(c),
{
    let u: u32 = c as u32;
    (0x9 <= u && u <= 0xD) || u == 0x20 || u == 0x85 || u == 0xA0 || u == 0x1680 || (0x2000 <= u
        && u <= 0x200A) || u == 0x2028 || u == 0x2029 || u == 0x202F || u == 0x205F || u == 0x3000
}

/// The characters of a string.
pub fn chars_of(s: &str) -> (v: Vec<char>)
    ensures
        v@ == s@,
{
    let mut v: Vec<char> = Vec::new();
    for c in it: s.chars()
        invariant
            v@ == it.seq().take(it.index() as int),
            it.seq() == s@,
    {
        v.push(c);
    }
    v
}

/// The string that a run of characters spells.
pub fn string_of(v: &Vec<char>, from: usize, to: usize) -> (s: String)
    requires
        from <= to <= v@.len(),
    ensures
        s@ == v@.subrange(from as int, to as int),
{
    let mut s: String = String::new();
    let mut i: usize = from;
    while i < to
        invariant
            from <= i <= to <= v@.len(),
            s@ == v@.subrange(from as int, i as int),
        decreases to - i,
    {
        s.push(v[i]);
        proof {
            assert(v@.subrange(from as int, i + 1) =~= v@.subrange(from as int, i as int).push(v@[i as int]));
        }
        i += 1;
    }
    s
}

/// Returns true if two strings hold the same text.
pub fn same_text(a: &str, b: &str) -> (r: bool)
    ensures
        r == (a@ == b@),
{
    let x: String = a.to_owned();
    let y: String = b.to_owned();
    x == y
}

/// The text of each string in a sequence.
pub open spec fn texts(s: Seq<String>) -> Seq<Seq<char>> {
    s.map_values(|x: String| x@)
}

/// The text of each string slice in a sequence.
pub open spec fn slice_texts(s: Seq<&str>) -> Seq<Seq<char>> {
    s.map_values(|x: &str| x@)
}

/// The text of a string that may be there.
pub open spec fn text_of(s: Option<String>) -> Option<Seq<char>> {
    match s {
        Some(x) => Some(x@),
        None => None,
    }
}

/// Copies each string.
pub fn copy_texts(v: &Vec<String>) -> (r: Vec<String>)
    ensures
        r@ == v@,
{
    let mut r: Vec<String> = Vec::new();
    let mut i: usize = 0;
    while i < v.len()
        invariant
            i <= v@.len(),
            r@ == v@.take(i as int),
        decreases v@.len() - i,
    {
        r.push(v[i].clone());
        i += 1;
        proof {
            assert(v@.take(i as int) =~= v@.take(i - 1).push(v@[i - 1]));
        }
    }
    r
}

/// The first position from `p` on where `stop` holds, or the end if there is none.
pub open spec fn first_from(len: int, p: int, stop: spec_fn(int) -> bool) -> int
    decreases len - p,
{
    if p >= len || stop(p) {
        p
    } else {
        first_from(len, p + 1, stop)
    }
}

pub proof fn lemma_first_from(len: int, p: int, stop: spec_fn(int) -> bool)
    ensures
        first_from(len, p, stop) >= p,
        p <= len ==> first_from(len, p, stop) <= len,
        first_from(len, p, stop) < len ==> stop(first_from(len, p, stop)),
        forall|i: int| p <= i < first_from(len, p, stop) ==> !#[trigger] stop(i),
    decreases len - p,
{
    if p >= len || stop(p) {
    } else {
        lemma_first_from(len, p + 1, stop);
    }
}

/// The digit for a number below ten.
pub open spec fn digit(d: nat) -> char {
    if d == 0 {
        '0'
    } else if d == 1 {
        '1'
    } else if d == 2 {
        '2'
    } else if d == 3 {
        '3'
    } else if d == 4 {
        '4'
    } else if d == 5 {
        '5'
    } else if d == 6 {
        '6'
    } else if d == 7 {
        '7'
    } else if d == 8 {
        '8'
    } else {
        '9'
    }
}

/// A number in decimal, without leading zeros.
pub open spec fn decimal(n: nat) -> Seq<char>
    decreases n,
{
    if n < 10 {
        seq![digit(n)]
    } else {
        decimal(n / 10).push(digit(n % 10))
    }
}

/// Writes out a number in decimal.
pub fn decimal_of(n: u64) -> (s: String)
    ensures
        s@ == decimal(n as nat),
    decreases n,
{
    let mut s: String = if n < 10 {
        String::new()
    } else {
        decimal_of(n / 10)
    };
    let d: u64 = n % 10;
    let c: char = if d == 0 {
        '0'
    } else if d == 1 {
        '1'
    } else if d == 2 {
        '2'
    } else if d == 3 {
        '3'
    } else if d == 4 {
        '4'
    } else if d == 5 {
        '5'
    } else if d == 6 {
        '6'
    } else if d == 7 {
        '7'
    } else if d == 8 {
        '8'
    } else {
        '9'
    };
    s.push(c);
    proof {
        assert(s@ =~= decimal(n as nat));
    }
    s
}

/// A number in decimal, with a sign if it's negative.
pub open spec fn signed(n: int) -> Seq<char> {
    if n < 0 {
        "-"@ + decimal((-n) as nat)
    } else {
        decimal(n as nat)
    }
}

/// Writes out a number in decimal, with a sign if it's negative.
pub fn signed_of(n: i32) -> (s: String)
    ensures
        s@ == signed(n as int),
{
    if n < 0 {
        let mut s: String = "-".to_owned();
        s.append(decimal_of((-(n as i64)) as u64).as_str());
        s
    } else {
        decimal_of(n as u64)
    }
}

/// An ASCII capital letter in lower case, and any other character as it is.
pub open spec fn lower_ascii(c: char) -> char {
    if 'A' <= c <= 'Z' {
        (c as u8 + 32) as u8 as char
    } else {
        c
    }
}

/// Text with its ASCII capitals in lower case.
pub open spec fn lower_ascii_text(s: Seq<char>) -> Seq<char> {
    s.map_values(|c: char| lower_ascii(c))
}

/// Copies a string with its ASCII capitals in lower case.
pub fn lower_ascii_of(s: &str) -> (r: String)
    ensures
        r@ == lower_ascii_text(s@),
{
    let v = chars_of(s);
    let mut r: String = String::new();
    let mut i: usize = 0;
    while i < v.len()
        invariant
            i <= v@.len(),
            v@ == s@,
            r@ =~= lower_ascii_text(s@).take(i as int),
        decreases v@.len() - i,
    {
        let c: char = v[i];
        let l: char = if 'A' <= c && c <= 'Z' {
            ((c as u8) + 32) as char
        } else {
            c
        };
        r.push(l);
        i += 1;
        proof {
            assert(lower_ascii_text(s@).take(i as int) =~= lower_ascii_text(s@).take(i - 1).push(
                lower_ascii_text(s@)[i - 1],
            ));
        }
    }
    r
}

/// Where a character occurs in a text.
pub open spec fn occurs(s: Seq<char>, c: char) -> spec_fn(int) -> bool {
    |i: int| s[i] == c
}

/// The pieces of a text from `p` on, as separated by a character: one more than it occurs.
pub open spec fn pieces_from(s: Seq<char>, p: int, sep: char) -> Seq<Seq<char>>
    decreases s.len() - p,
{
    let end = first_from(s.len() as int, p, occurs(s, sep));
    proof {
        lemma_first_from(s.len() as int, p, occurs(s, sep));
    }
    if end >= s.len() {
        seq![s.skip(p)]
    } else {
        seq![s.subrange(p, end)] + pieces_from(s, end + 1, sep)
    }
}

/// The pieces of a text, as separated by a character.
pub open spec fn pieces(s: Seq<char>, sep: char) -> Seq<Seq<char>> {
    pieces_from(s, 0, sep)
}

/// Splits a string at every occurrence of a character.
pub fn split_at_char(s: &str, sep: char) -> (r: Vec<String>)
    ensures
        texts(r@) == pieces(s@, sep),
        r@.len() > 0,
{
    let v = chars_of(s);
    let ghost len = v@.len() as int;
    let ghost text = s@;
    let ghost stop = occurs(text, sep);
    let mut r: Vec<String> = Vec::new();
    let mut start: usize = 0;
    let mut i: usize = 0;
    proof {
        assert(texts(r@) =~= Seq::empty());
    }
    while i < v.len()
        invariant
            start <= i <= v@.len(),
            v@ == s@,
            len == v@.len(),
            text == s@,
            stop == occurs(text, sep),
            first_from(len, start as int, stop) == first_from(len, i as int, stop),
            pieces(s@, sep) == texts(r@) + pieces_from(s@, start as int, sep),
        decreases v@.len() - i,
    {
        if v[i] == sep {
            let piece = string_of(&v, start, i);
            proof {
                assert(first_from(len, start as int, stop) == i);
                assert(pieces_from(text, start as int, sep) == seq![piece@] + pieces_from(text, i + 1, sep));
                assert(texts(r@.push(piece)) =~= texts(r@).push(piece@));
            }
            r.push(piece);
            start = i + 1;
        }
        i += 1;
    }
    let piece = string_of(&v, start, i);
    proof {
        assert(texts(r@.push(piece)) =~= texts(r@).push(piece@));
        assert(first_from(len, start as int, stop) == len);
        assert(piece@ =~= s@.skip(start as int));
    }
    r.push(piece);
    r
}

/// The words of a text from `p` on: the longest runs of anything but white space.
pub open spec fn words_from(s: Seq<char>, p: int) -> Seq<Seq<char>>
    decreases s.len() - p,
{
    let start = first_from(s.len() as int, p, |i: int| !is_white_space(s[i]));
    let end = first_from(s.len() as int, start, |i: int| is_white_space(s[i]));
    proof {
        lemma_first_from(s.len() as int, p, |i: int| !is_white_space(s[i]));
        lemma_first_from(s.len() as int, start, |i: int| is_white_space(s[i]));
    }
    if start >= s.len() {
        Seq::empty()
    } else {
        seq![s.subrange(start, end)] + words_from(s, end)
    }
}

/// The words of a text.
pub open spec fn words(s: Seq<char>) -> Seq<Seq<char>> {
    words_from(s, 0)
}

/// Splits a string into its words.
pub fn words_of(s: &str) -> (r: Vec<String>)
    ensures
        texts(r@) == words(s@),
{
    let v = chars_of(s);
    let ghost len = v@.len() as int;
    let ghost dark = |i: int| !is_white_space(v@[i]);
    let ghost light = |i: int| is_white_space(v@[i]);
    let mut r: Vec<String> = Vec::new();
    let mut i: usize = 0;
    proof {
        assert(texts(r@) =~= Seq::empty());
    }
    while i < v.len()
        invariant
            i <= v@.len(),
            v@ == s@,
            len == v@.len(),
            dark == (|k: int| !is_white_space(v@[k])),
            light == (|k: int| is_white_space(v@[k])),
            words(s@) == texts(r@) + words_from(s@, i as int),
        decreases v@.len() - i,
    {
        let ghost from = i as int;
        while i < v.len() && white_space(v[i])
            invariant
                from <= i <= v@.len(),
                len == v@.len(),
                dark == (|k: int| !is_white_space(v@[k])),
                first_from(len, from, dark) == first_from(len, i as int, dark),
            decreases v@.len() - i,
        {
            i += 1;
        }
        if i < v.len() {
            let start: usize = i;
            while i < v.len() && !white_space(v[i])
                invariant
                    start <= i <= v@.len(),
                    len == v@.len(),
                    light == (|k: int| is_white_space(v@[k])),
                    first_from(len, start as int, light) == first_from(len, i as int, light),
                decreases v@.len() - i,
            {
                i += 1;
            }
            let word = string_of(&v, start, i);
            proof {
                assert(texts(r@.push(word)) =~= texts(r@).push(word@));
                lemma_first_from(len, start as int, light);
            }
            r.push(word);
        }
    }
    r
}

/// Whether a text comes before another, or is the same, in the order of their characters' code
/// points.
pub open spec fn text_le(a: Seq<char>, b: Seq<char>) -> bool
    decreases a.len(),
{
    if a.len() == 0 {
        true
    } else if b.len() == 0 {
        false
    } else if a[0] != b[0] {
        a[0] < b[0]
    } else {
        text_le(a.skip(1), b.skip(1))
    }
}

/// Returns true if a string comes before another, or is the same.
pub fn text_before(a: &str, b: &str) -> (r: bool)
    ensures
        r == text_le(a@, b@),
{
    let x = chars_of(a);
    let y = chars_of(b);
    let mut i: usize = 0;
    proof {
        assert(x@.skip(0) =~= a@);
        assert(y@.skip(0) =~= b@);
    }
    while i < x.len()
        invariant
            i <= x@.len(),
            i <= y@.len(),
            x@ == a@,
            y@ == b@,
            text_le(a@, b@) == text_le(x@.skip(i as int), y@.skip(i as int)),
        decreases x@.len() - i,
    {
        if i >= y.len() {
            return false;
        }
        if x[i] != y[i] {
            return x[i] < y[i];
        }
        proof {
            assert(x@.skip(i as int).skip(1) =~= x@.skip(i + 1));
            assert(y@.skip(i as int).skip(1) =~= y@.skip(i + 1));
        }
        i += 1;
    }
    true
}

pub proof fn lemma_text_le_total(a: Seq<char>, b: Seq<char>)
    ensures
        text_le(a, b) || text_le(b, a),
        text_le(a, b) && text_le(b, a) ==> a == b,
        a == b ==> text_le(a, b),
    decreases a.len(),
{
    if a.len() > 0 && b.len() > 0 {
        lemma_text_le_total(a.skip(1), b.skip(1));
        if a[0] == b[0] && a.skip(1) == b.skip(1) {
            assert(a =~= seq![a[0]] + a.skip(1));
            assert(b =~= seq![b[0]] + b.skip(1));
        }
    } else {
        if a.len() == 0 && b.len() == 0 {
            assert(a =~= b);
        }
    }
}

pub proof fn lemma_text_le_transitive(a: Seq<char>, b: Seq<char>, c: Seq<char>)
    requires
        text_le(a, b),
        text_le(b, c),
    ensures
        text_le(a, c),
    decreases a.len(),
{
    if a.len() > 0 && b.len() > 0 && c.len() > 0 && a[0] == b[0] && b[0] == c[0] {
        lemma_text_le_transitive(a.skip(1), b.skip(1), c.skip(1));
    }
}

/// The number that a run of decimal digits stands for.
pub open spec fn digits_value(s: Seq<char>) -> int
    decreases s.len(),
{
    if s.len() == 0 {
        0
    } else {
        digits_value(s.drop_last()) * 10 + (s.last() as int - '0' as int)
    }
}

/// Whether a text is made of decimal digits alone.
pub open spec fn all_digits(s: Seq<char>) -> bool {
    forall|i: int| 0 <= i < s.len() ==> '0' <= #[trigger] s[i] <= '9'
}

/// A number in decimal reads back as the number, and is written without leading zeros.
pub proof fn law_decimal_reads_back(n: nat)
    ensures
        digits_value(decimal(n)) == n,
        all_digits(decimal(n)),
        decimal(n).len() > 0,
        decimal(n)[0] == '0' ==> n == 0 && decimal(n).len() == 1,
    decreases n,
{
    if n < 10 {
        assert(decimal(n).drop_last() =~= Seq::empty());
        assert(digits_value(decimal(n).drop_last()) == 0);
    } else {
        law_decimal_reads_back(n / 10);
        assert(decimal(n).drop_last() =~= decimal(n / 10));
        assert(decimal(n)[0] == decimal(n / 10)[0]);
    }
}

/// A number that's negative reads back as a minus sign and the rest of it, and any other reads back
/// as it is.
pub proof fn law_signed_reads_back(n: int)
    ensures
        n >= 0 ==> digits_value(signed(n)) == n && all_digits(signed(n)),
        n < 0 ==> signed(n)[0] == '-' && digits_value(signed(n).skip(1)) == -n && all_digits(
            signed(n).skip(1),
        ),
{
    if n < 0 {
        reveal_strlit("-");
        law_decimal_reads_back((-n) as nat);
        assert(signed(n).skip(1) =~= decimal((-n) as nat));
    } else {
        law_decimal_reads_back(n as nat);
    }
}

/// Text in lower case has as many characters as before: each is the same one, but for the capitals
/// from A to Z, which become the letters that come as far after `a`.
pub proof fn law_only_capitals_change(s: Seq<char>, i: int)
    requires
        0 <= i < s.len(),
    ensures
        lower_ascii_text(s).len() == s.len(),
        'A' <= s[i] <= 'Z' ==> lower_ascii_text(s)[i] as int - 'a' as int == s[i] as int - 'A' as int,
        !('A' <= s[i] <= 'Z') ==> lower_ascii_text(s)[i] == s[i],
{
}

/// The first character that two texts differ in decides which comes first, and the one that the
/// other starts with comes first where they differ in none.
pub proof fn law_first_difference_decides(a: Seq<char>, b: Seq<char>, p: int)
    requires
        0 <= p <= a.len(),
        p <= b.len(),
        forall|i: int| 0 <= i < p ==> a[i] == b[i],
        p < a.len() && p < b.len() ==> a[p] != b[p],
    ensures
        text_le(a, b) == (p == a.len() || (p < b.len() && a[p] < b[p])),
    decreases p,
{
    if p > 0 {
        law_first_difference_decides(a.skip(1), b.skip(1), p - 1);
    }
}

/// Pieces of a text, put together with a character between each and the next.
pub open spec fn rejoined(pieces: Seq<Seq<char>>, sep: char) -> Seq<char>
    decreases pieces.len(),
{
    if pieces.len() == 0 {
        Seq::empty()
    } else if pieces.len() == 1 {
        pieces[0]
    } else {
        pieces[0] + seq![sep] + rejoined(pieces.skip(1), sep)
    }
}

proof fn lemma_pieces_from(s: Seq<char>, p: int, sep: char)
    requires
        0 <= p <= s.len(),
    ensures
        pieces_from(s, p, sep).len() > 0,
        rejoined(pieces_from(s, p, sep), sep) == s.skip(p),
        forall|k: int|
            0 <= k < pieces_from(s, p, sep).len() ==> !(#[trigger] pieces_from(s, p, sep)[k]).contains(
                sep,
            ),
    decreases s.len() - p,
{
    let stop = occurs(s, sep);
    let end = first_from(s.len() as int, p, stop);
    lemma_first_from(s.len() as int, p, stop);
    let all = pieces_from(s, p, sep);
    assert forall|i: int| p <= i < end implies s[i] != sep by {
        assert(!stop(i));
    }
    if end < s.len() {
        assert(stop(end));
        lemma_pieces_from(s, end + 1, sep);
        let rest = pieces_from(s, end + 1, sep);
        assert(all.skip(1) =~= rest);
        assert(all[0] == s.subrange(p, end));
        assert(s.subrange(p, end) + seq![sep] + s.skip(end + 1) =~= s.skip(p));
        assert forall|k: int| 0 <= k < all.len() implies !(#[trigger] all[k]).contains(sep) by {
            if k > 0 {
                assert(all[k] == rest[k - 1]);
            }
        }
    }
}

/// The pieces of a text make it up again with the character between them, which none of them holds.
pub proof fn law_pieces_make_up_the_text(s: Seq<char>, sep: char)
    ensures
        rejoined(pieces(s, sep), sep) == s,
        pieces(s, sep).len() > 0,
        forall|k: int| 0 <= k < pieces(s, sep).len() ==> !(#[trigger] pieces(s, sep)[k]).contains(sep),
{
    lemma_pieces_from(s, 0, sep);
    assert(s.skip(0) =~= s);
}

proof fn lemma_last_piece(s: Seq<char>, p: int, sep: char, at: int)
    requires
        0 <= p <= at < s.len(),
        s[at] == sep,
        forall|i: int| at < i < s.len() ==> s[i] != sep,
    ensures
        pieces_from(s, p, sep).len() > 1,
        pieces_from(s, p, sep).last() == s.skip(at + 1),
    decreases s.len() - p,
{
    let stop = occurs(s, sep);
    let end = first_from(s.len() as int, p, stop);
    lemma_first_from(s.len() as int, p, stop);
    assert(stop(at));
    assert(stop(end));
    if end < at {
        lemma_last_piece(s, end + 1, sep, at);
    } else {
        let next = first_from(s.len() as int, end + 1, stop);
        lemma_first_from(s.len() as int, end + 1, stop);
        assert(next < s.len() ==> stop(next));
        assert(pieces_from(s, end + 1, sep) =~= seq![s.skip(end + 1)]);
    }
}

/// The last piece of a text is what comes after the last occurrence of the character, or all of it
/// where there's none.
pub proof fn law_last_piece_is_the_end(s: Seq<char>, sep: char, at: int)
    ensures
        0 <= at < s.len() && s[at] == sep && (forall|i: int| at < i < s.len() ==> s[i] != sep)
            ==> pieces(s, sep).len() > 1 && pieces(s, sep).last() == s.skip(at + 1),
        !s.contains(sep) ==> pieces(s, sep) == seq![s],
        s.contains(sep) <==> pieces(s, sep).len() > 1,
{
    if 0 <= at < s.len() && s[at] == sep && (forall|i: int| at < i < s.len() ==> s[i] != sep) {
        lemma_last_piece(s, 0, sep, at);
    }
    let stop = occurs(s, sep);
    lemma_first_from(s.len() as int, 0, stop);
    let end = first_from(s.len() as int, 0, stop);
    lemma_pieces_from(s, 0, sep);
    if !s.contains(sep) {
        assert(end < s.len() ==> stop(end) && s[end] == sep);
        assert(s.skip(0) =~= s);
    } else {
        let i = choose|i: int| 0 <= i < s.len() && s[i] == sep;
        assert(stop(i));
        lemma_pieces_from(s, end + 1, sep);
    }
}

proof fn lemma_first_is(len: int, p: int, stop: spec_fn(int) -> bool, x: int)
    requires
        p <= x <= len,
        forall|i: int| p <= i < x ==> !#[trigger] stop(i),
        x < len ==> stop(x),
    ensures
        first_from(len, p, stop) == x,
{
    lemma_first_from(len, p, stop);
    let y = first_from(len, p, stop);
    if y < x {
        assert(!stop(y));
    } else if x < y {
        assert(!stop(x));
    }
}

/// The words from one place on are the words from another in a text that goes on in the same way.
proof fn lemma_words_alike(s: Seq<char>, p: int, t: Seq<char>, q: int)
    requires
        0 <= p <= s.len(),
        0 <= q <= t.len(),
        s.skip(p) == t.skip(q),
    ensures
        words_from(s, p) == words_from(t, q),
    decreases s.len() - p,
{
    let (s_dark, s_light) = (|i: int| !is_white_space(s[i]), |i: int| is_white_space(s[i]));
    let (t_dark, t_light) = (|i: int| !is_white_space(t[i]), |i: int| is_white_space(t[i]));
    let by = q - p;
    assert(s.skip(p).len() == s.len() - p);
    assert(t.skip(q).len() == t.len() - q);
    assert forall|i: int| p <= i < s.len() implies #[trigger] s[i] == t[i + by] by {
        assert(s.skip(p)[i - p] == s[i]);
        assert(t.skip(q)[i - p] == t[i + by]);
    }
    let start = first_from(s.len() as int, p, s_dark);
    lemma_first_from(s.len() as int, p, s_dark);
    assert forall|i: int| q <= i < start + by implies !#[trigger] t_dark(i) by {
        assert(!s_dark(i - by));
        assert(s[i - by] == t[i]);
    }
    if start < s.len() {
        assert(s_dark(start) && s[start] == t[start + by]);
    }
    lemma_first_is(t.len() as int, q, t_dark, start + by);
    if start < s.len() {
        let end = first_from(s.len() as int, start, s_light);
        lemma_first_from(s.len() as int, start, s_light);
        assert(!s_light(start));
        assert forall|i: int| start + by <= i < end + by implies !#[trigger] t_light(i) by {
            assert(!s_light(i - by));
            assert(s[i - by] == t[i]);
        }
        if end < s.len() {
            assert(s_light(end) && s[end] == t[end + by]);
        }
        lemma_first_is(t.len() as int, start + by, t_light, end + by);
        assert(s.subrange(start, end) =~= t.subrange(start + by, end + by));
        assert(s.skip(end) =~= t.skip(end + by));
        lemma_words_alike(s, end, t, end + by);
    }
}

proof fn lemma_words_split(a: Seq<char>, c: char, b: Seq<char>, p: int)
    requires
        0 <= p <= a.len(),
        is_white_space(c),
    ensures
        words_from(a + seq![c] + b, p) == words_from(a, p) + words_from(b, 0),
    decreases a.len() - p,
{
    let s = a + seq![c] + b;
    let (s_dark, s_light) = (|i: int| !is_white_space(s[i]), |i: int| is_white_space(s[i]));
    let (a_dark, a_light) = (|i: int| !is_white_space(a[i]), |i: int| is_white_space(a[i]));
    let start = first_from(a.len() as int, p, a_dark);
    lemma_first_from(a.len() as int, p, a_dark);
    assert(s[a.len() as int] == c);
    if start < a.len() {
        assert(a_dark(start) && s[start] == a[start]);
        assert forall|i: int| p <= i < start implies !#[trigger] s_dark(i) by {
            assert(!a_dark(i) && s[i] == a[i]);
        }
        lemma_first_is(s.len() as int, p, s_dark, start);
        let end = first_from(a.len() as int, start, a_light);
        lemma_first_from(a.len() as int, start, a_light);
        assert(!a_light(start));
        assert forall|i: int| start <= i < end implies !#[trigger] s_light(i) by {
            assert(!a_light(i) && s[i] == a[i]);
        }
        if end < a.len() {
            assert(a_light(end) && s[end] == a[end]);
        }
        lemma_first_is(s.len() as int, start, s_light, end);
        assert(s.subrange(start, end) =~= a.subrange(start, end));
        lemma_words_split(a, c, b, end);
        assert(words_from(s, p) =~= seq![s.subrange(start, end)] + words_from(s, end));
        assert(words_from(s, p) =~= words_from(a, p) + words_from(b, 0));
    } else {
        let b_dark = |i: int| !is_white_space(b[i]);
        lemma_first_from(b.len() as int, 0, b_dark);
        let x = first_from(b.len() as int, 0, b_dark);
        let by = a.len() + 1;
        assert forall|i: int| p <= i < x + by implies !#[trigger] s_dark(i) by {
            if i < a.len() {
                assert(!a_dark(i) && s[i] == a[i]);
            } else if i > a.len() {
                assert(!b_dark(i - by) && s[i] == b[i - by]);
            }
        }
        if x < b.len() {
            assert(b_dark(x) && s[x + by] == b[x]);
        }
        lemma_first_is(s.len() as int, p, s_dark, x + by);
        assert forall|i: int| by <= i < x + by implies !#[trigger] s_dark(i) by {}
        lemma_first_is(s.len() as int, by as int, s_dark, x + by);
        assert(words_from(s, p) == words_from(s, by as int));
        assert(s.skip(by as int) =~= b);
        assert(b.skip(0) =~= b);
        lemma_words_alike(s, by as int, b, 0);
        assert(words_from(s, p) =~= words_from(a, p) + words_from(b, 0));
    }
}

/// White space parts words: the words of two texts with some between them are the words of the one
/// and then of the other. Anything without white space is one word, and nothing is none.
pub proof fn law_white_space_parts_words(a: Seq<char>, c: char, b: Seq<char>)
    ensures
        is_white_space(c) ==> words(a + seq![c] + b) == words(a) + words(b),
        a.len() > 0 && (forall|i: int| 0 <= i < a.len() ==> !is_white_space(#[trigger] a[i])) ==> words(
            a,
        ) == seq![a],
        words(Seq::empty()) == Seq::<Seq<char>>::empty(),
{
    if is_white_space(c) {
        lemma_words_split(a, c, b, 0);
    }
    if a.len() > 0 && (forall|i: int| 0 <= i < a.len() ==> !is_white_space(#[trigger] a[i])) {
        let (dark, light) = (|i: int| !is_white_space(a[i]), |i: int| is_white_space(a[i]));
        assert(dark(0));
        lemma_first_is(a.len() as int, 0, dark, 0);
        assert forall|i: int| 0 <= i < a.len() implies !#[trigger] light(i) by {}
        lemma_first_is(a.len() as int, 0, light, a.len() as int);
        lemma_first_is(a.len() as int, a.len() as int, dark, a.len() as int);
        assert(a.subrange(0, a.len() as int) =~= a);
        assert(words_from(a, a.len() as int) =~= Seq::empty());
        assert(words(a) =~= seq![a]);
    }
}

/// The texts of some strings are their own, in order.
pub proof fn law_texts_are_the_strings_own(strings: Seq<String>, slices: Seq<&str>, i: int)
    ensures
        texts(strings).len() == strings.len(),
        0 <= i < strings.len() ==> texts(strings)[i] == strings[i]@,
        slice_texts(slices).len() == slices.len(),
        0 <= i < slices.len() ==> slice_texts(slices)[i] == slices[i]@,
{
}

/// White space is just these characters: tab, line feed, vertical tab, form feed, carriage return and
/// space, next line, no-break space, the Ogham space mark, the typographic spaces from en quad to hair
/// space, the line and paragraph separators, the narrow no-break and mathematical spaces, and the
/// ideographic space.
pub proof fn law_white_space_is_unicodes(c: char)
    ensures
        is_white_space(c) <==> {
            ||| c == '\t' || c == '\n' || c == '\u{b}' || c == '\u{c}' || c == '\r' || c == ' '
            ||| c == '\u{85}' || c == '\u{a0}' || c == '\u{1680}'
            ||| '\u{2000}' <= c <= '\u{200a}'
            ||| c == '\u{2028}' || c == '\u{2029}' || c == '\u{202f}' || c == '\u{205f}' || c
                == '\u{3000}'
        },
{
}

} // verus!
