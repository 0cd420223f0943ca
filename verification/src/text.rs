//! Text as sequences of characters: ordering, search, and the few renderings
//! that messages and index tokens are built from.

use vstd::prelude::*;
use vstd::std_specs::iter::IteratorSpec;
use vstd::string::*;
use vstd::utf8::encode_utf8_decode_utf8;

verus! {

/// Strict lexicographic order by code point.
pub open spec fn text_lt(a: Seq<char>, b: Seq<char>) -> bool
    decreases a.len(),
{
    if b.len() == 0 {
        false
    } else if a.len() == 0 {
        true
    } else if a[0] == b[0] {
        text_lt(a.drop_first(), b.drop_first())
    } else {
        a[0] < b[0]
    }
}

/// `part` occurs in `whole` as a contiguous run of characters.
pub open spec fn text_has(whole: Seq<char>, part: Seq<char>) -> bool {
    exists|i: int| #[trigger] text_at(whole, part, i)
}

/// `part` occurs in `whole` at position `i`.
pub open spec fn text_at(whole: Seq<char>, part: Seq<char>, i: int) -> bool {
    0 <= i && i + part.len() <= whole.len() && whole.subrange(i, i + part.len()) == part
}

/// `whole` begins with `part`.
pub open spec fn text_begins(whole: Seq<char>, part: Seq<char>) -> bool {
    part.len() <= whole.len() && whole.take(part.len() as int) == part
}

/// The decimal digit for a value below ten.
pub open spec fn digit(d: nat) -> char {
    if d == 0 {
        '0'
    } else if d == 1 {
        '1'
    } else if d == 2 {
        '2'
    } else if d == 3 {
        '3'
    } else if d == 4 {
        '4'
    } else if d == 5 {
        '5'
    } else if d == 6 {
        '6'
    } else if d == 7 {
        '7'
    } else if d == 8 {
        '8'
    } else {
        '9'
    }
}

/// Decimal notation of a natural number, without leading zeros.
pub open spec fn decimal(n: nat) -> Seq<char>
    decreases n,
{
    if n < 10 {
        seq![digit(n)]
    } else {
        decimal(n / 10).push(digit(n % 10))
    }
}

/// `true` or `false`.
pub open spec fn bool_text(b: bool) -> Seq<char> {
    if b {
        "true"@
    } else {
        "false"@
    }
}

/// The pieces of `parts` with `gap` between neighbours.
pub open spec fn joined(parts: Seq<Seq<char>>, gap: Seq<char>) -> Seq<char>
    decreases parts.len(),
{
    if parts.len() == 0 {
        Seq::empty()
    } else if parts.len() == 1 {
        parts[0]
    } else {
        joined(parts.drop_last(), gap) + gap + parts.last()
    }
}

/// Something that a piece of text can be made of: a literal, a string, an
/// identifier.
pub trait IntoText: Sized {
    /// The text.
    spec fn text(&self) -> Seq<char>;

    fn into_text(self) -> (r: String)
        ensures
            r@ == self.text(),
    ;
}

impl IntoText for &str {
    open spec fn text(&self) -> Seq<char> {
        self@
    }

    fn into_text(self) -> (r: String) {
        self.to_owned()
    }
}

impl IntoText for String {
    open spec fn text(&self) -> Seq<char> {
        self@
    }

    fn into_text(self) -> (r: String) {
        self
    }
}

/// What `str::to_lowercase` returns.
pub uninterp spec fn lowercase(text: Seq<char>) -> Seq<char>;

/// What formatting a `str` with `{:?}` returns.
pub uninterp spec fn debug_quoted(text: Seq<char>) -> Seq<char>;

/// The characters with the Unicode property `White_Space`.
pub open spec fn white_space(c: char) -> bool {
    let code = c as u32;
    ||| 0x9 <= code <= 0xd
    ||| code == 0x20
    ||| code == 0x85
    ||| code == 0xa0
    ||| code == 0x1680
    ||| 0x2000 <= code <= 0x200a
    ||| code == 0x2028
    ||| code == 0x2029
    ||| code == 0x202f
    ||| code == 0x205f
    ||| code == 0x3000
}

/// Whether `a` comes before `b`.
pub(crate) fn text_less(a: &str, b: &str) -> (r: bool)
    ensures
        r == text_lt(a@, b@),
{
    let mut left = a.chars();
    let mut right = b.chars();
    let ghost mut rest = b@.len();
    loop
        invariant
            left.obeys_prophetic_iter_laws(),
            right.obeys_prophetic_iter_laws(),
            rest == right.remaining().len(),
            text_lt(a@, b@) == text_lt(left.remaining(), right.remaining()),
        decreases rest,
    {
        match right.next() {
            Some(d) => match left.next() {
                Some(c) => {
                    if c != d {
                        return c < d;
                    }
                    proof {
                        rest = (rest - 1) as nat;
                    }
                },
                None => {
                    return true;
                },
            },
            None => {
                return false;
            },
        }
    }
}

/// Whether two pieces of text have the same characters.
pub(crate) fn text_same(a: &str, b: &str) -> (r: bool)
    ensures
        r == (a@ == b@),
{
    let left = a.as_bytes();
    let right = b.as_bytes();
    if left.len() != right.len() {
        return false;
    }
    let mut i: usize = 0;
    while i < left.len()
        invariant
            i <= left.len(),
            left.len() == right.len(),
            left@ == a.spec_bytes(),
            right@ == b.spec_bytes(),
            left@.take(i as int) == right@.take(i as int),
        decreases left.len() - i,
    {
        if left[i] != right[i] {
            assert(a.spec_bytes()[i as int] != b.spec_bytes()[i as int]);
            return false;
        }
        assert(left@.take(i + 1) =~= left@.take(i as int).push(left@[i as int]));
        assert(right@.take(i + 1) =~= right@.take(i as int).push(right@[i as int]));
        i += 1;
    }
    proof {
        assert(left@ =~= left@.take(i as int));
        assert(right@ =~= right@.take(i as int));
        encode_utf8_decode_utf8(a@);
        encode_utf8_decode_utf8(b@);
    }
    true
}

/// Whether `part` stands in `whole` at position `at`.
fn stands_at(whole: &Vec<char>, part: &Vec<char>, at: usize) -> (r: bool)
    requires
        at + part@.len() <= whole@.len(),
    ensures
        r == text_at(whole@, part@, at as int),
{
    let ghost here = whole@.subrange(at as int, at + part@.len());
    let end: usize = whole.len();
    let mut i: usize = 0;
    while i < part.len()
        invariant
            i <= part.len(),
            end == whole@.len(),
            at + part@.len() <= end,
            here == whole@.subrange(at as int, at + part@.len()),
            forall|j: int| 0 <= j < i ==> #[trigger] here[j] == part@[j],
        decreases part.len() - i,
    {
        assert(here[i as int] == whole@[at + i]);
        if whole[at + i] != part[i] {
            return false;
        }
        i += 1;
    }
    assert(here =~= part@);
    true
}

/// Whether `part` occurs in `whole`.
pub(crate) fn text_contains(whole: &str, part: &str) -> (r: bool)
    ensures
        r == text_has(whole@, part@),
{
    let chars = chars_of(whole);
    let sought = chars_of(part);
    if sought.len() > chars.len() {
        return false;
    }
    let last: usize = chars.len() - sought.len();
    let mut i: usize = 0;
    loop
        invariant
            i <= last,
            chars@ == whole@,
            sought@ == part@,
            last + sought@.len() == chars@.len(),
            forall|j: int| 0 <= j < i ==> !#[trigger] text_at(whole@, part@, j),
        decreases last - i,
    {
        if stands_at(&chars, &sought, i) {
            return true;
        }
        if i == last {
            return false;
        }
        i += 1;
    }
}

/// Whether `whole` begins with `part`.
pub(crate) fn text_starts_with(whole: &str, part: &str) -> (r: bool)
    ensures
        r == text_begins(whole@, part@),
{
    let chars = chars_of(whole);
    let sought = chars_of(part);
    if sought.len() > chars.len() {
        return false;
    }
    assert(whole@.take(part@.len() as int) =~= whole@.subrange(0, part@.len() as int));
    stands_at(&chars, &sought, 0)
}

/// `str::to_lowercase`: a function of the text alone, named [`lowercase`].
#[verifier::external_body]
pub(crate) fn text_lowercase(text: &str) -> (r: String)
    ensures
        r@ == lowercase(text@),
{
    text.to_lowercase()
}

/// `Debug` of `str`: a function of the text alone, named [`debug_quoted`].
#[verifier::external_body]
pub(crate) fn text_debug(text: &str) -> (r: String)
    ensures
        r@ == debug_quoted(text@),
{
    format!("{:?}", text)
}

/// Whether a character is white space.
fn char_is_white(c: char) -> (r: bool)
    ensures
        r == white_space(c),
{
    let code: u32 = c as u32;
    (0x9 <= code && code <= 0xd) || code == 0x20 || code == 0x85 || code == 0xa0 || code == 0x1680
        || (0x2000 <= code && code <= 0x200a) || code == 0x2028 || code == 0x2029 || code == 0x202f
        || code == 0x205f || code == 0x3000
}

/// `String::push`: appends one character.
pub assume_specification[ std::string::String::push ](s: &mut std::string::String, c: char)
    ensures
        final(s)@ == old(s)@.push(c),
;

pub proof fn text_lt_irreflexive(a: Seq<char>)
    ensures
        !text_lt(a, a),
    decreases a.len(),
{
    if a.len() > 0 {
        text_lt_irreflexive(a.drop_first());
    }
}

pub proof fn text_lt_transitive(a: Seq<char>, b: Seq<char>, c: Seq<char>)
    requires
        text_lt(a, b),
        text_lt(b, c),
    ensures
        text_lt(a, c),
    decreases a.len(),
{
    if a.len() > 0 && a[0] == b[0] && b[0] == c[0] {
        text_lt_transitive(a.drop_first(), b.drop_first(), c.drop_first());
    }
}

pub proof fn text_lt_total(a: Seq<char>, b: Seq<char>)
    ensures
        text_lt(a, b) || a == b || text_lt(b, a),
    decreases a.len(),
{
    if a.len() == 0 {
        if b.len() == 0 {
            assert(a =~= b);
        }
    } else if b.len() > 0 && a[0] == b[0] {
        text_lt_total(a.drop_first(), b.drop_first());
        if a.drop_first() == b.drop_first() {
            assert(a =~= seq![a[0]] + a.drop_first());
            assert(b =~= seq![b[0]] + b.drop_first());
        }
    }
}

/// The decimal digit for `d`.
pub(crate) fn digit_char(d: u64) -> (c: char)
    requires
        d < 10,
    ensures
        c == digit(d as nat),
{
    match d {
        0 => '0',
        1 => '1',
        2 => '2',
        3 => '3',
        4 => '4',
        5 => '5',
        6 => '6',
        7 => '7',
        8 => '8',
        _ => '9',
    }
}

/// Decimal notation of `n`.
pub fn u64_text(n: u64) -> (r: String)
    ensures
        r@ == decimal(n as nat),
    decreases n,
{
    if n < 10 {
        let mut s = String::new();
        s.push(digit_char(n));
        assert(s@ =~= decimal(n as nat));
        s
    } else {
        let mut s = u64_text(n / 10);
        s.push(digit_char(n % 10));
        s
    }
}

/// Decimal notation of `n`.
pub fn usize_text(n: usize) -> (r: String)
    ensures
        r@ == decimal(n as nat),
{
    u64_text(n as u64)
}

/// The number of characters of the text.
pub fn char_count(text: &str) -> (r: usize)
    ensures
        r == text@.len(),
{
    chars_of(text).len()
}

/// Joins two pieces of text.
pub fn join2(a: &str, b: &str) -> (r: String)
    ensures
        r@ == a@ + b@,
{
    let mut s = a.to_owned();
    s.append(b);
    s
}

/// Joins three pieces of text.
pub fn join3(a: &str, b: &str, c: &str) -> (r: String)
    ensures
        r@ == a@ + b@ + c@,
{
    let mut s = a.to_owned();
    s.append(b);
    s.append(c);
    s
}

/// Joins the pieces with `gap` between neighbours.
pub fn join_all(parts: &Vec<String>, gap: &str) -> (r: String)
    ensures
        r@ == joined(parts.deep_view(), gap@),
{
    let mut out = String::new();
    let ghost all = parts.deep_view();
    let mut i: usize = 0;
    while i < parts.len()
        invariant
            i <= parts.len(),
            all == parts.deep_view(),
            out@ == joined(all.take(i as int), gap@),
        decreases parts.len() - i,
    {
        let ghost before = out@;
        if i > 0 {
            out.append(gap);
        }
        out.append(parts[i].as_str());
        proof {
            let next = all.take(i + 1);
            assert(next.drop_last() =~= all.take(i as int));
            assert(next.last() == parts[i as int]@);
            if i == 0 {
                assert(before =~= Seq::<char>::empty());
                assert(next.len() == 1);
                assert(out@ =~= next[0]);
            } else {
                assert(out@ =~= before + gap@ + next.last());
            }
        }
        i += 1;
    }
    assert(all.take(i as int) =~= all);
    out
}

/// The text holds nothing but white space.
pub open spec fn blank(text: Seq<char>) -> bool {
    forall|i: int| 0 <= i < text.len() ==> #[trigger] white_space(text[i])
}

/// Whether every character of the text is white space.
pub fn is_blank(text: &str) -> (r: bool)
    ensures
        r == blank(text@),
{
    let n: usize = text.unicode_len();
    let mut i: usize = 0;
    while i < n
        invariant
            i <= n,
            n == text@.len(),
            forall|j: int| 0 <= j < i ==> #[trigger] white_space(text@[j]),
        decreases n - i,
    {
        if !char_is_white(text.get_char(i)) {
            return false;
        }
        i += 1;
    }
    true
}

/// The characters of a piece of text.
pub fn chars_of(text: &str) -> (r: Vec<char>)
    ensures
        r@ == text@,
{
    let mut out: Vec<char> = Vec::new();
    for c in it: text.chars()
        invariant
            it.seq() == text@,
            out@ == it.seq().take(it.index()),
    {
        out.push(c);
        assert(out@ =~= it.seq().take(it.index() + 1));
    }
    assert(out@ =~= text@);
    out
}

/// The text made of the given characters.
pub fn text_of(chars: &Vec<char>) -> (r: String)
    ensures
        r@ == chars@,
{
    let mut out = String::new();
    let mut i: usize = 0;
    while i < chars.len()
        invariant
            i <= chars.len(),
            out@ == chars@.take(i as int),
        decreases chars.len() - i,
    {
        out.push(chars[i]);
        assert(out@ =~= chars@.take(i + 1));
        i += 1;
    }
    assert(out@ =~= chars@);
    out
}

/// The text with every occurrence of the two characters `first second`, read
/// from the left, replaced by `by`.
pub open spec fn pair_replaced(text: Seq<char>, first: char, second: char, by: char) -> Seq<char>
    decreases text.len(),
{
    if text.len() == 0 {
        text
    } else if text.len() >= 2 && text[0] == first && text[1] == second {
        seq![by] + pair_replaced(text.skip(2), first, second, by)
    } else {
        seq![text[0]] + pair_replaced(text.skip(1), first, second, by)
    }
}

/// Replaces every occurrence of the two characters `first second` by `by`.
pub fn replace_pair(text: &Vec<char>, first: char, second: char, by: char) -> (r: Vec<char>)
    ensures
        r@ == pair_replaced(text@, first, second, by),
{
    let mut out: Vec<char> = Vec::new();
    let mut i: usize = 0;
    let ghost whole = pair_replaced(text@, first, second, by);
    assert(text@.skip(0) =~= text@);
    while i < text.len()
        invariant
            i <= text.len(),
            whole == out@ + pair_replaced(text@.skip(i as int), first, second, by),
        decreases text.len() - i,
    {
        let ghost rest = text@.skip(i as int);
        let ghost done = out@;
        assert(rest[0] == text@[i as int]);
        if text.len() - i >= 2 && text[i] == first && text[i + 1] == second {
            assert(rest[1] == text@[i + 1]);
            out.push(by);
            assert(rest.skip(2) =~= text@.skip(i + 2));
            assert(whole =~= out@ + pair_replaced(text@.skip(i + 2), first, second, by));
            i += 2;
        } else {
            if text.len() - i >= 2 {
                assert(rest[1] == text@[i + 1]);
            }
            out.push(text[i]);
            assert(rest.skip(1) =~= text@.skip(i + 1));
            assert(whole =~= out@ + pair_replaced(text@.skip(i + 1), first, second, by));
            i += 1;
        }
    }
    assert(text@.skip(i as int).len() == 0);
    assert(out@ =~= whole);
    out
}

/// The pieces of `text` between occurrences of `mark`; there is one more piece
/// than there are marks.
pub open spec fn split_at_mark(text: Seq<char>, mark: char) -> Seq<Seq<char>>
    decreases text.len(),
{
    if text.len() == 0 {
        seq![Seq::<char>::empty()]
    } else {
        let before = split_at_mark(text.drop_last(), mark);
        if text.last() == mark {
            before.push(Seq::<char>::empty())
        } else {
            before.drop_last().push(before.last().push(text.last()))
        }
    }
}

/// Splits `text` at every occurrence of `mark`.
pub fn split_text(text: &Vec<char>, mark: char) -> (r: Vec<Vec<char>>)
    ensures
        r.deep_view() == split_at_mark(text@, mark),
        r.len() >= 1,
{
    let mut done: Vec<Vec<char>> = Vec::new();
    let mut current: Vec<char> = Vec::new();
    let mut i: usize = 0;
    assert(current.deep_view() =~= Seq::<char>::empty());
    assert(done.deep_view().push(current.deep_view()) =~= seq![Seq::<char>::empty()]);
    while i < text.len()
        invariant
            i <= text.len(),
            done.deep_view().push(current.deep_view()) == split_at_mark(text@.take(i as int), mark),
        decreases text.len() - i,
    {
        let ghost prefix = text@.take(i + 1);
        let ghost was = done.deep_view();
        let ghost piece = current.deep_view();
        assert(prefix.drop_last() =~= text@.take(i as int));
        let c = text[i];
        if c == mark {
            done.push(current);
            current = Vec::new();
            assert(done.deep_view() =~= was.push(piece));
            assert(current.deep_view() =~= Seq::<char>::empty());
        } else {
            current.push(c);
            assert(current.deep_view() =~= piece.push(c));
            assert(was.push(piece).drop_last() =~= was);
        }
        i += 1;
    }
    assert(text@.take(i as int) =~= text@);
    let ghost was = done.deep_view();
    let ghost piece = current.deep_view();
    done.push(current);
    assert(done.deep_view() =~= was.push(piece));
    done
}

/// Texts are in dictionary order: a text comes before one that goes on where it ends, and of
/// two that differ, the one with the smaller character where they first differ.
pub proof fn law_texts_are_in_dictionary_order(
    head: Seq<char>,
    a: char,
    b: char,
    left: Seq<char>,
    right: Seq<char>,
)
    ensures
        text_lt(head, head + seq![b] + right),
        !text_lt(head + seq![b] + right, head),
        a < b ==> text_lt(head + seq![a] + left, head + seq![b] + right),
        a > b ==> !text_lt(head + seq![a] + left, head + seq![b] + right),
    decreases head.len(),
{
    let x = head + seq![a] + left;
    let y = head + seq![b] + right;
    if head.len() > 0 {
        let rest = head.drop_first();
        law_texts_are_in_dictionary_order(rest, a, b, left, right);
        assert(x.drop_first() =~= rest + seq![a] + left);
        assert(y.drop_first() =~= rest + seq![b] + right);
        assert(x[0] == head[0] && y[0] == head[0]);
    } else {
        assert(x[0] == a && y[0] == b);
    }
}

/// A text holds a part exactly if it is made of something, the part, and something; it begins
/// with it exactly if the first something is nothing.
pub proof fn law_parts_stand_in_the_whole(whole: Seq<char>, part: Seq<char>)
    ensures
        text_has(whole, part) <==> exists|before: Seq<char>, after: Seq<char>|
            whole == #[trigger] (before + part + after),
        text_begins(whole, part) <==> exists|after: Seq<char>| whole == #[trigger] (part + after),
{
    if text_has(whole, part) {
        let i = choose|i: int| #[trigger] text_at(whole, part, i);
        let before = whole.take(i);
        let after = whole.skip(i + part.len());
        assert(whole =~= before + part + after) by {
            assert forall|k: int| 0 <= k < whole.len() implies whole[k] == (before + part
                + after)[k] by {
                if i <= k < i + part.len() {
                    assert(whole.subrange(i, i + part.len())[k - i] == part[k - i]);
                }
            }
        }
    }
    if exists|before: Seq<char>, after: Seq<char>| whole == #[trigger] (before + part + after) {
        let (before, after) = choose|before: Seq<char>, after: Seq<char>|
            whole == #[trigger] (before + part + after);
        assert(whole.subrange(before.len() as int, before.len() as int + part.len()) =~= part);
        assert(text_at(whole, part, before.len() as int));
    }
    if text_begins(whole, part) {
        let after = whole.skip(part.len() as int);
        assert(whole =~= part + after) by {
            assert forall|k: int| 0 <= k < whole.len() implies whole[k] == (part + after)[k] by {
                if k < part.len() {
                    assert(whole.take(part.len() as int)[k] == part[k]);
                }
            }
        }
    }
    if exists|after: Seq<char>| whole == #[trigger] (part + after) {
        let after = choose|after: Seq<char>| whole == #[trigger] (part + after);
        assert(whole.take(part.len() as int) =~= part);
    }
}

/// Decimal notation adds a digit for every power of ten, the lowest last, and has no leading
/// zero.
pub proof fn law_decimals_are_positional(n: nat, d: nat)
    requires
        d < 10,
    ensures
        n > 0 ==> decimal(10 * n + d) == decimal(n).push(digit(d)),
        decimal(d) == seq![digit(d)],
        decimal(n).len() > 0,
        decimal(n)[0] == '0' ==> n == 0,
        digit(d) as int == '0' as int + d,
    decreases n,
{
    if n > 0 {
        assert((10 * n + d) / 10 == n && (10 * n + d) % 10 == d) by (nonlinear_arith)
            requires
                d < 10,
        ;
    }
    if n >= 10 {
        law_decimals_are_positional(n / 10, n % 10);
    }
}

/// Joined pieces come one after the other with the gap between neighbours, and nothing else.
pub proof fn law_joined_pieces_follow_each_other(
    parts: Seq<Seq<char>>,
    piece: Seq<char>,
    gap: Seq<char>,
)
    ensures
        joined(Seq::empty(), gap) == Seq::<char>::empty(),
        joined(seq![piece], gap) == piece,
        parts.len() > 0 ==> joined(parts.push(piece), gap) == joined(parts, gap) + gap + piece,
{
    assert(parts.push(piece).drop_last() =~= parts);
}

/// Splitting at a mark and joining the pieces by it gives the text back, and no piece holds
/// the mark.
pub proof fn law_splitting_is_undone_by_joining(text: Seq<char>, mark: char)
    ensures
        split_at_mark(text, mark).len() > 0,
        joined(split_at_mark(text, mark), seq![mark]) == text,
        forall|i: int|
            0 <= i < split_at_mark(text, mark).len() ==> !(#[trigger] split_at_mark(
                text,
                mark,
            )[i]).contains(mark),
    decreases text.len(),
{
    let pieces = split_at_mark(text, mark);
    let gap = seq![mark];
    if text.len() == 0 {
        assert(pieces =~= seq![Seq::<char>::empty()]);
        assert(joined(pieces, gap) =~= text);
    } else {
        let rest = text.drop_last();
        let before = split_at_mark(rest, mark);
        law_splitting_is_undone_by_joining(rest, mark);
        assert(text =~= rest.push(text.last()));
        if text.last() == mark {
            assert(pieces.drop_last() =~= before);
            assert(joined(pieces, gap) =~= text);
            assert forall|i: int| 0 <= i < pieces.len() implies !(#[trigger] pieces[i]).contains(
                mark,
            ) by {
                if i < before.len() {
                    assert(pieces[i] == before[i]);
                }
            }
        } else {
            let last = before.last().push(text.last());
            assert(pieces.drop_last() =~= before.drop_last());
            assert(before[before.len() - 1] == before.last());
            assert(joined(pieces, gap) =~= text);
            assert forall|i: int| 0 <= i < pieces.len() implies !(#[trigger] pieces[i]).contains(
                mark,
            ) by {
                if i < before.len() - 1 {
                    assert(pieces[i] == before[i]);
                } else {
                    assert(pieces[i] == last);
                    if last.contains(mark) {
                        let k = choose|k: int| 0 <= k < last.len() && last[k] == mark;
                        assert(before.last()[k] == mark);
                    }
                }
            }
        }
    }
}

} // verus!
