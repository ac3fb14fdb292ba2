//! Display names and their formatting escapes.

use vstd::prelude::*;

verus! {

/// The character that opens a formatting escape inside a display name.
pub const FORMAT_MARK: char = '\u{a7}';

/// A display name without its formatting escapes: every mark is dropped
/// together with the one character that follows it.
pub open spec fn plain_text(s: Seq<char>) -> Seq<char>
    decreases s.len(),
{
    if s.len() == 0 {
        s
    } else if s[0] == FORMAT_MARK {
        if s.len() == 1 {
            Seq::empty()
        } else {
            plain_text(s.skip(2))
        }
    } else {
        seq![s[0]] + plain_text(s.skip(1))
    }
}

/// What is still to be written when `rest` is left to read and `skip` tells
/// whether the character before it was a mark.
spec fn pending_text(skip: bool, rest: Seq<char>) -> Seq<char> {
    if skip {
        if rest.len() == 0 {
            rest
        } else {
            plain_text(rest.skip(1))
        }
    } else {
        plain_text(rest)
    }
}

/// Believed of `String::push`: it appends the character to the end of the
/// text and changes nothing else.
pub assume_specification[ String::push ](s: &mut String, ch: char)
    ensures
        final(s)@ == old(s)@.push(ch),
;

/// Removes the formatting escapes from a display name.
pub fn remove_formatting(text: &str) -> (plain: String)
    ensures
        plain@ == plain_text(text@),
{
    let mut new_text = String::new();
    let mut skip = false;
    proof {
        assert(text@.skip(0) == text@);
        assert(new_text@ + plain_text(text@) == plain_text(text@));
    }
    for ch in it: text.chars()
        invariant
            it.seq() == text@,
            new_text@ + pending_text(skip, text@.skip(it.index())) == plain_text(text@),
    {
        proof {
            let rest = text@.skip(it.index());
            assert(rest[0] == ch);
            assert(rest.skip(1) == text@.skip(it.index() + 1));
            if !skip && ch == FORMAT_MARK && rest.len() > 1 {
                assert(rest.skip(2) == rest.skip(1).skip(1));
            }
            if !skip && ch != FORMAT_MARK {
                assert(new_text@ + (seq![ch] + plain_text(rest.skip(1))) == new_text@.push(ch)
                    + plain_text(rest.skip(1)));
            }
        }
        if skip {
            skip = false;
        } else if ch == FORMAT_MARK {
            skip = true;
        } else {
            new_text.push(ch);
        }
    }
    proof {
        assert(text@.skip(text@.len() as int).len() == 0);
    }
    new_text
}

/// The characters of a text.
pub fn chars_of(text: &str) -> (chars: Vec<char>)
    ensures
        chars@ == text@,
{
    let mut chars: Vec<char> = Vec::new();
    for ch in it: text.chars()
        invariant
            it.seq() == text@,
            chars@ == text@.take(it.index()),
    {
        proof {
            assert(text@.take(it.index()).push(ch) == text@.take(it.index() + 1));
        }
        chars.push(ch);
    }
    proof {
        assert(text@.take(text@.len() as int) == text@);
    }
    chars
}

/// The text made of the characters from `from` up to `to`.
pub fn text_of(chars: &Vec<char>, from: usize, to: usize) -> (text: String)
    requires
        from <= to <= chars@.len(),
    ensures
        text@ == chars@.subrange(from as int, to as int),
{
    let mut text = String::new();
    let mut i: usize = from;
    while i < to
        invariant
            from <= i <= to <= chars@.len(),
            text@ == chars@.subrange(from as int, i as int),
        decreases to - i,
    {
        text.push(chars[i]);
        proof {
            assert(chars@.subrange(from as int, i as int).push(chars@[i as int]) == chars@.subrange(
                from as int,
                i + 1,
            ));
        }
        i += 1;
    }
    text
}

/// `a` stands before `b` in the order of texts: at the first place where
/// they differ `a` has the smaller character, or `a` ends there and `b`
/// goes on.
pub open spec fn text_before(a: Seq<char>, b: Seq<char>) -> bool
    decreases a.len(),
{
    if b.len() == 0 {
        false
    } else if a.len() == 0 {
        true
    } else if a[0] != b[0] {
        a[0] < b[0]
    } else {
        text_before(a.skip(1), b.skip(1))
    }
}

/// Of two different texts exactly one stands before the other, and no text
/// stands before itself.
pub proof fn lemma_text_order_total(a: Seq<char>, b: Seq<char>)
    ensures
        a == b ==> !text_before(a, b),
        a != b ==> (text_before(a, b) <==> !text_before(b, a)),
    decreases a.len(),
{
    if a.len() > 0 && b.len() > 0 && a[0] == b[0] {
        lemma_text_order_total(a.skip(1), b.skip(1));
        if a.skip(1) == b.skip(1) {
            assert(a =~= seq![a[0]] + a.skip(1));
            assert(b =~= seq![b[0]] + b.skip(1));
        }
    } else if a.len() == 0 && b.len() == 0 {
        assert(a =~= b);
    }
}

/// The order of texts is transitive.
pub proof fn lemma_text_order_transitive(a: Seq<char>, b: Seq<char>, c: Seq<char>)
    requires
        text_before(a, b),
        text_before(b, c),
    ensures
        text_before(a, c),
    decreases a.len(),
{
    if a.len() > 0 && a[0] == b[0] && b[0] == c[0] {
        lemma_text_order_transitive(a.skip(1), b.skip(1), c.skip(1));
    }
}

/// Whether `a` stands before `b` in the order of texts.
pub fn comes_before(a: &str, b: &str) -> (before: bool)
    ensures
        before == text_before(a@, b@),
{
    let left = chars_of(a);
    let right = chars_of(b);
    let mut i: usize = 0;
    proof {
        assert(left@.skip(0) == left@);
        assert(right@.skip(0) == right@);
    }
    while i < left.len() && i < right.len() && left[i] == right[i]
        invariant
            i <= left@.len(),
            i <= right@.len(),
            text_before(left@, right@) == text_before(left@.skip(i as int), right@.skip(i as int)),
        decreases left@.len() - i,
    {
        proof {
            assert(left@.skip(i as int).skip(1) == left@.skip(i + 1));
            assert(right@.skip(i as int).skip(1) == right@.skip(i + 1));
        }
        i += 1;
    }
    if i == right.len() {
        false
    } else if i == left.len() {
        true
    } else {
        left[i] < right[i]
    }
}

} // verus!
