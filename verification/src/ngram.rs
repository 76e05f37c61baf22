//! The tokenizer: overlapping windows of a fixed number of characters.

use crate::error::IndexError;
use vstd::prelude::*;
use vstd::string::StrSliceExecFns;

verus! {

/// How many windows of `width` characters a text of `length` characters has.
pub open spec fn window_count(length: nat, width: nat) -> nat {
    if width == 0 || length < width {
        0
    } else {
        (length - width + 1) as nat
    }
}

/// The windows of `width` consecutive characters of `text`, by the position
/// of their first character.
pub open spec fn windows(text: Seq<char>, width: nat) -> Seq<Seq<char>> {
    Seq::new(window_count(text.len(), width), |i: int| text.subrange(i, i + width))
}

/// A text shorter than the width has no window. A text of `length`
/// characters, at least the width, has `length - width + 1` windows; the one
/// at place `i` holds the `width` characters from place `i` on.
pub proof fn lemma_windows_shape(text: Seq<char>, width: nat)
    requires
        width > 0,
    ensures
        text.len() < width ==> windows(text, width).len() == 0,
        text.len() >= width ==> windows(text, width).len() == text.len() - width + 1,
        forall|i: int|
            0 <= i < windows(text, width).len() ==> {
                &&& (#[trigger] windows(text, width)[i]).len() == width
                &&& windows(text, width)[i] == text.subrange(i, i + width)
                &&& forall|j: int|
                    0 <= j < width ==> windows(text, width)[i][j] == text[i + j]
            },
{
}

/// Dropping the first character of a text drops its first window and keeps
/// the others, in order.
pub proof fn lemma_windows_advance(text: Seq<char>, width: nat)
    requires
        0 < width <= text.len(),
    ensures
        windows(text, width)[0] == text.subrange(0, width as int),
        windows(text.drop_first(), width) == windows(text, width).drop_first(),
{
    let rest = windows(text.drop_first(), width);
    let tail = windows(text, width).drop_first();
    assert forall|i: int| 0 <= i < rest.len() implies rest[i] == tail[i] by {
        assert(text.drop_first().subrange(i, i + width) =~= text.subrange(i + 1, i + 1 + width));
    }
    assert(rest =~= tail);
}

/// The characters of a text, handed out one at a time. A character is one
/// unit, however many bytes its encoding takes.
#[derive(Debug)]
pub struct TokinizedChars {
    chars: Vec<char>,
    taken: usize,
}

impl View for TokinizedChars {
    type V = Seq<char>;

    /// The characters that are still to be handed out.
    closed spec fn view(&self) -> Seq<char> {
        self.chars@.skip(self.taken as int)
    }
}

impl TokinizedChars {
    #[verifier::type_invariant]
    spec fn in_range(&self) -> bool {
        self.taken <= self.chars.len()
    }

    /// A reader at the start of `text`.
    pub fn new(text: &str) -> (reader: Self)
        ensures
            reader@ == text@,
            text@.len() <= usize::MAX,
    {
        let mut chars: Vec<char> = Vec::new();
        for c in walk: text.chars()
            invariant
                chars@ == walk.seq().take(walk.index()),
                walk.seq() == text@,
        {
            chars.push(c);
        }
        assert(chars@.skip(0) =~= chars@);
        TokinizedChars { chars, taken: 0 }
    }

    /// A reader at the start of `text`; the same as [`TokinizedChars::new`].
    pub fn from(text: &str) -> (reader: Self)
        ensures
            reader@ == text@,
            text@.len() <= usize::MAX,
    {
        TokinizedChars::new(text)
    }

    /// The next character, if one is left.
    pub fn next(&mut self) -> (c: Option<char>)
        ensures
            old(self)@.len() == 0 ==> c is None && final(self)@ == old(self)@,
            old(self)@.len() > 0 ==> {
                &&& c == Some(old(self)@[0])
                &&& final(self)@ == old(self)@.drop_first()
            },
        no_unwind
    {
        proof {
            use_type_invariant(&*self);
        }
        if self.taken < self.chars.len() {
            let c: char = self.chars[self.taken];
            self.taken += 1;
            assert(self@ =~= old(self)@.drop_first());
            Some(c)
        } else {
            None
        }
    }
}

/// The windows of a character reader, handed out one at a time.
///
/// Only the current window is held: each step clones it, drops its first
/// character and takes one more from the reader.
pub struct NgramIterator {
    iter: TokinizedChars,
    n: usize,
    window: Vec<char>,
}

impl View for NgramIterator {
    type V = Seq<Seq<char>>;

    /// The windows that are still to be handed out.
    closed spec fn view(&self) -> Seq<Seq<char>> {
        windows(self.window@ + self.iter@, self.n as nat)
    }
}

impl NgramIterator {
    #[verifier::type_invariant]
    spec fn window_filled(&self) -> bool {
        &&& self.n >= 1
        &&& self.window.len() <= self.n
        &&& self.window.len() < self.n ==> self.iter@.len() == 0
    }

    /// The number of characters of each window.
    pub closed spec fn width(&self) -> nat {
        self.n as nat
    }

    /// The windows of `n` characters over what `iter` has left. A width of
    /// zero is refused.
    pub fn new(iter: TokinizedChars, n: usize) -> (outcome: Result<Self, IndexError>)
        ensures
            outcome is Ok <==> n > 0,
            outcome matches Ok(grams) ==> grams@ == windows(iter@, n as nat) && grams.width() == n,
            outcome matches Err(fault) ==> fault == IndexError::InvalidWindowWidth,
    {
        if n == 0 {
            return Err(IndexError::InvalidWindowWidth);
        }
        let ghost all = iter@;
        let mut iter = iter;
        let mut window: Vec<char> = Vec::new();
        while window.len() < n
            invariant
                window.len() <= n,
                window@ + iter@ == all,
            ensures
                window.len() <= n,
                window.len() < n ==> iter@.len() == 0,
                window@ + iter@ == all,
            decreases n - window.len(),
        {
            let ghost held = window@;
            let ghost left = iter@;
            match iter.next() {
                Some(item) => {
                    window.push(item);
                    assert(window@ + iter@ =~= held + left);
                },
                None => {
                    break ;
                },
            }
        }
        Ok(NgramIterator { iter, n, window })
    }

    /// The next window, if one is left.
    pub fn next(&mut self) -> (gram: Option<Vec<char>>)
        ensures
            final(self).width() == old(self).width(),
            old(self)@.len() == 0 ==> gram is None && final(self)@ == old(self)@,
            old(self)@.len() > 0 ==> {
                &&& gram matches Some(window)
                &&& window@ == old(self)@[0]
                &&& final(self)@ == old(self)@.drop_first()
            },
    {
        proof {
            use_type_invariant(&*self);
        }
        if self.window.len() < self.n {
            return None;
        }
        let ghost pending = self.window@ + self.iter@;
        let mut shifted = self.window.clone();
        assert(shifted@ =~= self.window@);
        shifted.remove(0);
        match self.iter.next() {
            Some(item) => {
                shifted.push(item);
            },
            None => {},
        }
        assert(shifted@ + self.iter@ =~= pending.drop_first());
        core::mem::swap(&mut self.window, &mut shifted);
        proof {
            assert(shifted@ =~= pending.subrange(0, self.n as int));
            lemma_windows_advance(pending, self.n as nat);
        }
        Some(shifted)
    }
}

/// A source of characters that can be cut into windows.
pub trait Ngram: Sized {
    /// The characters that the source has left.
    spec fn characters(&self) -> Seq<char>;

    /// The windows of `n` characters over the source. A width of zero is
    /// refused.
    fn ngrams(self, n: usize) -> (outcome: Result<NgramIterator, IndexError>)
        ensures
            outcome is Ok <==> n > 0,
            outcome matches Ok(grams) ==> grams@ == windows(self.characters(), n as nat)
                && grams.width() == n,
            outcome matches Err(fault) ==> fault == IndexError::InvalidWindowWidth,
    ;
}

impl Ngram for TokinizedChars {
    open spec fn characters(&self) -> Seq<char> {
        self@
    }

    fn ngrams(self, n: usize) -> (outcome: Result<NgramIterator, IndexError>) {
        NgramIterator::new(self, n)
    }
}

/// `String::push` appends the character to the end of the string and leaves
/// the characters before it as they were.
pub assume_specification[ String::push ](s: &mut String, ch: char)
    ensures
        final(s)@ == old(s)@.push(ch),
;

/// The string made of the characters of `gram`, in order.
pub fn token_text(gram: &Vec<char>) -> (text: String)
    ensures
        text@ == gram@,
{
    let mut text = String::new();
    let mut i: usize = 0;
    while i < gram.len()
        invariant
            0 <= i <= gram.len(),
            text@ == gram@.take(i as int),
        decreases gram.len() - i,
    {
        text.push(gram[i]);
        assert(gram@.take(i + 1) =~= gram@.take(i as int).push(gram@[i as int]));
        i += 1;
    }
    assert(gram@.take(gram@.len() as int) =~= gram@);
    text
}

/// How many n-grams of `n` characters `text` has.
pub fn count_windows(text: &str, n: usize) -> (count: usize)
    ensures
        count == window_count(text@.len(), n as nat),
{
    let length: usize = text.unicode_len();
    if n == 0 || length < n {
        0
    } else {
        length - n + 1
    }
}

/// The n-grams of `text`: every window of `n` consecutive characters, from
/// the first character on, each as a string. A text of fewer than `n`
/// characters has none; a width of zero is refused.
pub fn ngrams(n: usize, text: &str) -> (outcome: Result<Vec<String>, IndexError>)
    ensures
        outcome is Ok <==> n > 0,
        outcome matches Err(fault) ==> fault == IndexError::InvalidWindowWidth,
        outcome matches Ok(grams) ==> {
            &&& grams@.len() == window_count(text@.len(), n as nat)
            &&& forall|i: int|
                0 <= i < grams@.len() ==> (#[trigger] grams@[i])@ == text@.subrange(i, i + n)
        },
{
    let mut source = match TokinizedChars::new(text).ngrams(n) {
        Err(fault) => {
            return Err(fault);
        },
        Ok(source) => source,
    };
    let ghost all = windows(text@, n as nat);
    let mut grams: Vec<String> = Vec::new();
    loop
        invariant
            grams@.len() + source@.len() == all.len(),
            forall|i: int| 0 <= i < grams@.len() ==> (#[trigger] grams@[i])@ == all[i],
            forall|i: int| 0 <= i < source@.len() ==> source@[i] == all[grams@.len() + i],
        ensures
            grams@.len() == all.len(),
            forall|i: int| 0 <= i < grams@.len() ==> (#[trigger] grams@[i])@ == all[i],
        decreases source@.len(),
    {
        match source.next() {
            Some(window) => {
                grams.push(token_text(&window));
            },
            None => {
                break ;
            },
        }
    }
    Ok(grams)
}

} // verus!
