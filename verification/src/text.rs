//! Strings and lists of strings: comparing, copying, and the two renderings
//! that messages are made of.
use vstd::prelude::*;

verus! {

/// How `{:?}` renders a text: in double quotes, with the escapes of
/// `str`'s `Debug`.
pub uninterp spec fn quoted(text: Seq<char>) -> Seq<char>;

/// The decimal digits of a number, without leading zeros.
pub open spec fn decimal(n: nat) -> Seq<char>
    decreases n,
{
    let digit = (('0' as u32) + n % 10) as char;
    if n < 10 {
        seq![digit]
    } else {
        decimal(n / 10).push(digit)
    }
}

/// `format!("{:?}", text)`, by std's `Debug` for `str`. Its result depends on
/// the text alone and is known here by its name, [`quoted`].
#[verifier::external_body]
pub(crate) fn quote(text: &str) -> (r: String)
    ensures
        r@ == quoted(text@),
{
    format!("{:?}", text)
}

fn digits_of(n: usize) -> (r: Vec<char>)
    ensures
        r@ == decimal(n as nat),
    decreases n,
{
    let digit: char = (48u8 + (n % 10) as u8) as char;
    if n < 10 {
        let mut digits: Vec<char> = Vec::new();
        digits.push(digit);
        digits
    } else {
        let mut digits = digits_of(n / 10);
        digits.push(digit);
        digits
    }
}

/// The decimal digits of a number.
pub(crate) fn decimal_of(n: usize) -> (r: String)
    ensures
        r@ == decimal(n as nat),
{
    let digits = digits_of(n);
    text_of(digits.as_slice())
}

/// Whether two texts hold the same characters.
pub fn same_text(a: &str, b: &str) -> (r: bool)
    ensures
        r == (a@ == b@),
{
    let x: String = a.to_owned();
    let y: String = b.to_owned();
    x == y
}

/// Whether two optional texts are both absent, or hold the same characters.
pub fn same_option(a: &Option<String>, b: &Option<String>) -> (r: bool)
    ensures
        r == (a.deep_view() == b.deep_view()),
{
    match (a, b) {
        (Some(x), Some(y)) => *x == *y,
        (None, None) => true,
        _ => false,
    }
}

/// Whether two lists hold the same texts in the same order.
pub fn same_texts(a: &Vec<String>, b: &Vec<String>) -> (r: bool)
    ensures
        r == (a.deep_view() == b.deep_view()),
{
    if a.len() != b.len() {
        assert(a.deep_view().len() != b.deep_view().len());
        return false;
    }
    let mut i: usize = 0;
    while i < a.len()
        invariant
            i <= a.len() == b.len(),
            forall|j: int| 0 <= j < i ==> a.deep_view()[j] == b.deep_view()[j],
        decreases a.len() - i,
    {
        if a[i] != b[i] {
            assert(a.deep_view()[i as int] != b.deep_view()[i as int]);
            return false;
        }
        i = i + 1;
    }
    assert(a.deep_view() =~= b.deep_view());
    true
}

/// A copy of an optional text.
pub fn copy_option(a: &Option<String>) -> (r: Option<String>)
    ensures
        r.deep_view() == a.deep_view(),
{
    match a {
        Some(x) => Some(x.clone()),
        None => None,
    }
}

/// A copy of a list of texts.
pub fn copy_texts(a: &Vec<String>) -> (r: Vec<String>)
    ensures
        r.deep_view() == a.deep_view(),
{
    let r = a.clone();
    assert(r.deep_view() =~= a.deep_view());
    r
}

/// The characters of a text, one by one.
pub fn chars_of(text: &str) -> (r: Vec<char>)
    ensures
        r@ == text@,
{
    let mut out: Vec<char> = Vec::new();
    for c in iter: text.chars()
        invariant
            out@ == iter.seq().take(iter.index() as int),
    {
        out.push(c);
    }
    out
}

/// `String::push`: the character stands behind the text.
pub assume_specification[ String::push ](s: &mut String, ch: char)
    ensures
        final(s)@ == old(s)@.push(ch),
;

/// The text made of the characters, in order.
pub(crate) fn text_of(chars: &[char]) -> (r: String)
    ensures
        r@ == chars@,
{
    let mut text = String::new();
    let mut i: usize = 0;
    assert(text@ =~= chars@.take(0));
    while i < chars.len()
        invariant
            i <= chars@.len(),
            text@ == chars@.take(i as int),
        decreases chars@.len() - i,
    {
        text.push(chars[i]);
        i = i + 1;
        assert(text@ =~= chars@.take(i as int));
    }
    assert(text@ =~= chars@);
    text
}

/// The pieces between the separators among the first `n` characters; there is
/// always one more piece than there are separators.
pub open spec fn pieces_upto(text: Seq<char>, separator: char, n: int) -> Seq<Seq<char>>
    decreases n,
{
    if n <= 0 {
        seq![Seq::empty()]
    } else {
        let before = pieces_upto(text, separator, n - 1);
        if text[n - 1] == separator {
            before.push(Seq::empty())
        } else {
            before.drop_last().push(before.last().push(text[n - 1]))
        }
    }
}

/// The pieces of a text between its separators.
pub open spec fn pieces(text: Seq<char>, separator: char) -> Seq<Seq<char>> {
    pieces_upto(text, separator, text.len() as int)
}

pub proof fn lemma_pieces_not_empty(text: Seq<char>, separator: char, n: int)
    ensures
        pieces_upto(text, separator, n).len() > 0,
    decreases n,
{
    if n > 0 {
        lemma_pieces_not_empty(text, separator, n - 1);
    }
}

proof fn lemma_one_piece(text: Seq<char>, separator: char, n: int)
    requires
        0 <= n <= text.len(),
        forall|i: int| 0 <= i < n ==> text[i] != separator,
    ensures
        pieces_upto(text, separator, n) == seq![text.take(n)],
    decreases n,
{
    if n > 0 {
        lemma_one_piece(text, separator, n - 1);
        assert(text.take(n) == text.take(n - 1).push(text[n - 1]));
        assert(pieces_upto(text, separator, n) =~= seq![text.take(n)]);
    } else {
        assert(text.take(0) =~= Seq::empty());
    }
}

/// A text without separators is its own single piece.
pub proof fn a_text_without_separators_is_one_piece(text: Seq<char>, separator: char)
    requires
        !text.contains(separator),
    ensures
        pieces(text, separator) == seq![text],
{
    assert forall|i: int| 0 <= i < text.len() implies text[i] != separator by {
        assert(text.contains(text[i]));
    }
    lemma_one_piece(text, separator, text.len() as int);
    assert(text.take(text.len() as int) =~= text);
}

proof fn lemma_pieces_after(head: Seq<char>, rest: Seq<char>, separator: char, n: int)
    requires
        !head.contains(separator),
        0 <= n <= rest.len(),
    ensures
        pieces_upto(head.push(separator) + rest, separator, head.len() + 1 + n) == seq![head]
            + pieces_upto(rest, separator, n),
    decreases n,
{
    let whole = head.push(separator) + rest;
    if n == 0 {
        assert forall|i: int| 0 <= i < head.len() implies whole[i] != separator by {
            assert(head.contains(head[i]));
        }
        lemma_one_piece(whole, separator, head.len() as int);
        assert(whole.take(head.len() as int) =~= head);
        assert(whole[head.len() as int] == separator);
        assert(pieces_upto(whole, separator, (head.len() + 1) as int) =~= seq![head] + seq![
            Seq::empty(),
        ]);
    } else {
        lemma_pieces_after(head, rest, separator, n - 1);
        lemma_pieces_not_empty(rest, separator, n - 1);
        let before = pieces_upto(rest, separator, n - 1);
        assert(whole[head.len() + n] == rest[n - 1]);
        assert((seq![head] + before).last() == before.last());
        assert((seq![head] + before).drop_last() =~= seq![head] + before.drop_last());
        assert(pieces_upto(whole, separator, head.len() + 1 + n) =~= seq![head] + pieces_upto(
            rest,
            separator,
            n,
        ));
    }
}

/// The first piece ends at the first separator, and the pieces of what
/// follows come after it.
pub proof fn first_piece_then_the_rest(head: Seq<char>, rest: Seq<char>, separator: char)
    requires
        !head.contains(separator),
    ensures
        pieces(head.push(separator) + rest, separator) == seq![head] + pieces(rest, separator),
{
    lemma_pieces_after(head, rest, separator, rest.len() as int);
}

/// The pieces of a text between its separators.
pub fn split_text(text: &str, separator: char) -> (r: Vec<String>)
    ensures
        r.deep_view() == pieces(text@, separator),
        r@.len() > 0,
{
    let chars = chars_of(text);
    let mut out: Vec<String> = Vec::new();
    let mut piece: Vec<char> = Vec::new();
    let mut i: usize = 0;
    assert(out.deep_view().push(piece@) =~= pieces_upto(text@, separator, 0));
    while i < chars.len()
        invariant
            i <= chars.len(),
            chars@ == text@,
            out.deep_view().push(piece@) == pieces_upto(text@, separator, i as int),
        decreases chars.len() - i,
    {
        let ghost before = out.deep_view().push(piece@);
        assert(before.last() == piece@);
        assert(before.drop_last() =~= out.deep_view());
        let c = chars[i];
        if c == separator {
            let done = text_of(piece.as_slice());
            out.push(done);
            piece = Vec::new();
            assert(out.deep_view() =~= before);
            assert(piece@ =~= Seq::empty());
        } else {
            piece.push(c);
        }
        i = i + 1;
        assert(out.deep_view().push(piece@) =~= pieces_upto(text@, separator, i as int));
    }
    let done = text_of(piece.as_slice());
    let ghost all = out.deep_view().push(piece@);
    out.push(done);
    assert(out.deep_view() =~= all);
    out
}

} // verus!
