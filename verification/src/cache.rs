//! The text format in which an enumeration is kept between runs.
//!
//! A cache file holds one line per flag. A line holds the entries of the
//! flag's vertex matrix as decimal numbers, each followed by one space, and
//! ends with a line feed. Reading is more liberal than writing: numbers may be
//! separated by any run of white space, line breaks carry no meaning, and the
//! numbers are regrouped into flags by count alone.
//!
//! This module frames and unframes the numbers as text. Turning a number into
//! its decimal form and back is left to the caller.

use vstd::prelude::*;
use vstd::string::*;
use crate::text::{is_space, is_whitespace, pages, rows, words};

verus! {

/// The state of the tokenizer between two characters.
pub struct Scan {
    /// The words that have ended.
    pub done: Seq<Seq<char>>,
    /// The characters of the word that is being read; empty between words.
    pub word: Seq<char>,
}

/// The tokenizer's state after one more character: white space ends the word
/// that is being read, any other character joins it.
pub open spec fn scan_char(s: Scan, c: char) -> Scan {
    if is_space(c) {
        if s.word.len() > 0 {
            Scan { done: s.done.push(s.word), word: Seq::empty() }
        } else {
            s
        }
    } else {
        Scan { done: s.done, word: s.word.push(c) }
    }
}

/// The tokenizer's state after the whole of a text.
pub open spec fn scan(text: Seq<char>) -> Scan
    decreases text.len(),
{
    if text.len() == 0 {
        Scan { done: Seq::empty(), word: Seq::empty() }
    } else {
        scan_char(scan(text.drop_last()), text.last())
    }
}

/// The words of a text: its maximal runs of characters that are not white
/// space, in the order in which they stand.
pub open spec fn tokens(text: Seq<char>) -> Seq<Seq<char>> {
    let s = scan(text);
    if s.word.len() > 0 {
        s.done.push(s.word)
    } else {
        s.done
    }
}

/// A word as the tokenizer yields it: not empty, and free of white space.
pub open spec fn is_word(w: Seq<char>) -> bool {
    &&& w.len() > 0
    &&& forall|i: int| 0 <= i < w.len() ==> !is_space(#[trigger] w[i])
}

/// Number of complete flags among `len` numbers, a flag of dimension `dim`
/// taking `dim * dim` of them.
pub open spec fn record_count(len: nat, dim: nat) -> nat {
    if dim == 0 {
        0
    } else {
        len / (dim * dim)
    }
}

/// The numbers of a file regrouped into flags: consecutive runs of
/// `dim * dim` numbers, without the incomplete run that may be left at the
/// end.
pub open spec fn records<T>(values: Seq<T>, dim: nat) -> Seq<Seq<T>> {
    Seq::new(
        record_count(values.len(), dim),
        |k: int| values.subrange(k * (dim * dim), (k + 1) * (dim * dim)),
    )
}

/// The line of one flag: each number followed by one space.
pub open spec fn line(numbers: Seq<Seq<char>>) -> Seq<char>
    decreases numbers.len(),
{
    if numbers.len() == 0 {
        Seq::empty()
    } else {
        line(numbers.drop_last()) + numbers.last() + seq![' ']
    }
}

/// The text of a cache file: the line of each flag, each ended by a line feed.
pub open spec fn document(flags: Seq<Seq<Seq<char>>>) -> Seq<char>
    decreases flags.len(),
{
    if flags.len() == 0 {
        Seq::empty()
    } else {
        document(flags.drop_last()) + line(flags.last()) + seq!['\n']
    }
}

/// Splits the text of a cache file into its words.
pub fn split_tokens(text: &str) -> (list: Vec<String>)
    ensures
        words(list@) == tokens(text@),
{
    let mut list: Vec<String> = Vec::new();
    let mut word = String::new();
    let mut open: bool = false;
    assert(words(list@) =~= Seq::empty());
    assert(text@.take(0).len() == 0);
    for c in it: text.chars()
        invariant
            it.seq() == text@,
            scan(text@.take(it.index())).done == words(list@),
            scan(text@.take(it.index())).word == word@,
            open == (word@.len() > 0),
    {
        let ghost i = it.index();
        assert(text@.take(i + 1).drop_last() =~= text@.take(i));
        assert(text@.take(i + 1).last() == c);
        if is_whitespace(c) {
            if open {
                let ghost before = words(list@);
                list.push(word);
                assert(words(list@) =~= before.push(word@));
                word = String::new();
                open = false;
            }
        } else {
            word.push(c);
            open = true;
        }
    }
    assert(text@.take(text@.len() as int) =~= text@);
    if open {
        let ghost before = words(list@);
        list.push(word);
        assert(words(list@) =~= before.push(word@));
    }
    list
}

/// Regroups the numbers of a cache file into flags of dimension `dim`. What
/// is left after the last complete flag is dropped.
pub fn regroup<T: Copy>(values: &Vec<T>, dim: usize) -> (flags: Vec<Vec<T>>)
    ensures
        rows(flags@) == records(values@, dim as nat),
        flags@.len() == record_count(values@.len(), dim as nat),
        forall|k: int|
            0 <= k < flags@.len() ==> (#[trigger] flags@[k])@ == values@.subrange(
                k * (dim * dim),
                (k + 1) * (dim * dim),
            ),
{
    let mut flags: Vec<Vec<T>> = Vec::new();
    let len: usize = values.len();
    let width: usize = match dim.checked_mul(dim) {
        Some(w) => w,
        None => {
            // A single flag would take more numbers than any list can hold.
            assert(values@.len() / ((dim as nat) * (dim as nat)) == 0) by (nonlinear_arith)
                requires
                    len == values@.len(),
                    len < (dim as nat) * (dim as nat),
            ;
            assert(rows(flags@) =~= records(values@, dim as nat));
            return flags;
        },
    };
    if width == 0 {
        assert(dim == 0) by (nonlinear_arith)
            requires
                dim * dim == 0,
        ;
        assert(rows(flags@) =~= records(values@, dim as nat));
        return flags;
    }
    let count: usize = len / width;
    assert(count * width <= values.len()) by (nonlinear_arith)
        requires
            count == values.len() / width,
            width > 0,
    ;
    let mut k: usize = 0;
    while k < count
        invariant
            k <= count,
            width > 0,
            width == dim * dim,
            count * width <= values.len(),
            flags.len() == k,
            forall|j: int|
                0 <= j < k ==> (#[trigger] flags[j])@ == values@.subrange(
                    j * width,
                    (j + 1) * width,
                ),
        decreases count - k,
    {
        assert((k + 1) * width <= count * width && (k + 1) * width == k * width + width)
            by (nonlinear_arith)
            requires
                k < count,
        ;
        let base: usize = k * width;
        let mut chunk: Vec<T> = Vec::new();
        let mut i: usize = 0;
        while i < width
            invariant
                i <= width,
                base + width <= values.len(),
                chunk@ == values@.subrange(base as int, base + i),
            decreases width - i,
        {
            chunk.push(values[base + i]);
            i = i + 1;
            assert(chunk@ =~= values@.subrange(base as int, base + i));
        }
        flags.push(chunk);
        k = k + 1;
    }
    assert(rows(flags@) =~= records(values@, dim as nat));
    flags
}

/// Writes the line of one flag at the end of a text: each number followed by
/// one space, then a line feed.
pub fn append_line(text: &mut String, numbers: &Vec<String>)
    ensures
        final(text)@ == old(text)@ + line(words(numbers@)) + seq!['\n'],
{
    let mut i: usize = 0;
    while i < numbers.len()
        invariant
            i <= numbers.len(),
            text@ == old(text)@ + line(words(numbers@).take(i as int)),
        decreases numbers.len() - i,
    {
        let ghost all = words(numbers@);
        assert(all.take(i + 1).drop_last() =~= all.take(i as int));
        text.append(numbers[i].as_str());
        text.push(' ');
        i = i + 1;
        assert(text@ =~= old(text)@ + line(all.take(i as int)));
    }
    assert(words(numbers@).take(i as int) =~= words(numbers@));
    text.push('\n');
    assert(text@ =~= old(text)@ + line(words(numbers@)) + seq!['\n']);
}

/// The text of a cache file that holds the given flags, each as the list of
/// its numbers in decimal form.
pub fn render(flags: &Vec<Vec<String>>) -> (text: String)
    ensures
        text@ == document(pages(flags@)),
{
    let mut text = String::new();
    let mut k: usize = 0;
    while k < flags.len()
        invariant
            k <= flags.len(),
            text@ == document(pages(flags@).take(k as int)),
        decreases flags.len() - k,
    {
        let ghost all = pages(flags@);
        assert(all.take(k + 1).drop_last() =~= all.take(k as int));
        append_line(&mut text, &flags[k]);
        k = k + 1;
    }
    assert(pages(flags@).take(k as int) =~= pages(flags@));
    text
}

/// Every word that the tokenizer yields is a word: it is not empty and holds
/// no white space.
pub proof fn tokens_are_words(text: Seq<char>)
    ensures
        forall|i: int| 0 <= i < tokens(text).len() ==> is_word(#[trigger] tokens(text)[i]),
{
    scan_holds_words(text);
    let s = scan(text);
    assert forall|i: int| 0 <= i < tokens(text).len() implies is_word(
        #[trigger] tokens(text)[i],
    ) by {
        if i < s.done.len() {
            assert(tokens(text)[i] == s.done[i]);
        } else {
            assert(tokens(text)[i] == s.word);
        }
    }
}

/// While a text is read, the words that have ended are words, and the one
/// being read holds no white space.
proof fn scan_holds_words(text: Seq<char>)
    ensures
        forall|i: int| 0 <= i < scan(text).done.len() ==> is_word(#[trigger] scan(text).done[i]),
        forall|i: int| 0 <= i < scan(text).word.len() ==> !is_space(#[trigger] scan(text).word[i]),
    decreases text.len(),
{
    if text.len() > 0 {
        scan_holds_words(text.drop_last());
        let before = scan(text.drop_last());
        let after = scan(text);
        assert forall|i: int| 0 <= i < after.done.len() implies is_word(
            #[trigger] after.done[i],
        ) by {
            if i < before.done.len() {
                assert(after.done[i] == before.done[i]);
            } else {
                assert(after.done[i] == before.word);
            }
        }
        assert forall|i: int| 0 <= i < after.word.len() implies !is_space(
            #[trigger] after.word[i],
        ) by {
            if i < before.word.len() {
                assert(after.word[i] == before.word[i]);
            }
        }
    }
}

/// Reading on through characters that are not white space only lengthens the
/// word that is being read.
proof fn scan_through_word(text: Seq<char>, w: Seq<char>)
    requires
        forall|i: int| 0 <= i < w.len() ==> !is_space(#[trigger] w[i]),
    ensures
        scan(text + w).done == scan(text).done,
        scan(text + w).word == scan(text).word + w,
    decreases w.len(),
{
    if w.len() == 0 {
        assert(text + w =~= text);
        assert(scan(text).word + w =~= scan(text).word);
    } else {
        let init = w.drop_last();
        scan_through_word(text, init);
        assert((text + w).drop_last() =~= text + init);
        assert((text + w).last() == w.last());
        assert((scan(text).word + init).push(w.last()) =~= scan(text).word + w);
    }
}

/// Reading the line of a flag from between two words adds the flag's numbers
/// to the words that have ended and stops between two words again.
proof fn scan_through_line(text: Seq<char>, numbers: Seq<Seq<char>>)
    requires
        scan(text).word.len() == 0,
        forall|i: int| 0 <= i < numbers.len() ==> is_word(#[trigger] numbers[i]),
    ensures
        scan(text + line(numbers)).done == scan(text).done + numbers,
        scan(text + line(numbers)).word.len() == 0,
    decreases numbers.len(),
{
    if numbers.len() == 0 {
        assert(text + line(numbers) =~= text);
        assert(scan(text).done + numbers =~= scan(text).done);
    } else {
        let init = numbers.drop_last();
        let last = numbers.last();
        let upto = text + line(init);
        scan_through_line(text, init);
        scan_through_word(upto, last);
        assert(scan(upto).word + last =~= last);
        let whole = (upto + last).push(' ');
        assert(whole.drop_last() =~= upto + last);
        assert(is_space(' '));
        assert(text + line(numbers) =~= whole);
        assert((scan(text).done + init).push(last) =~= scan(text).done + numbers);
    }
}

/// Reading the text of a whole file yields the numbers of all its flags and
/// stops between two words.
proof fn scan_through_document(flags: Seq<Seq<Seq<char>>>)
    requires
        forall|k: int, i: int|
            0 <= k < flags.len() && 0 <= i < flags[k].len() ==> is_word(#[trigger] flags[k][i]),
    ensures
        scan(document(flags)).done == flags.flatten(),
        scan(document(flags)).word.len() == 0,
    decreases flags.len(),
{
    if flags.len() == 0 {
        assert(flags.flatten() =~= Seq::<Seq<char>>::empty());
    } else {
        let init = flags.drop_last();
        let last = flags.last();
        assert forall|k: int, i: int| 0 <= k < init.len() && 0 <= i < init[k].len() implies is_word(
            #[trigger] init[k][i],
        ) by {
            assert(init[k] == flags[k]);
        }
        scan_through_document(init);
        scan_through_line(document(init), last);
        let whole = (document(init) + line(last)).push('\n');
        assert(whole.drop_last() =~= document(init) + line(last));
        assert(is_space('\n'));
        assert(document(flags) =~= whole);
        assert(flags =~= init.push(last));
        init.lemma_flatten_push(last);
    }
}

/// A file is read back as it was written: the words of the text that `render`
/// makes of a list of flags are the numbers of those flags, in order, as long
/// as each number was written as a word.
pub proof fn tokens_of_document(flags: Seq<Seq<Seq<char>>>)
    requires
        forall|k: int, i: int|
            0 <= k < flags.len() && 0 <= i < flags[k].len() ==> is_word(#[trigger] flags[k][i]),
    ensures
        tokens(document(flags)) == flags.flatten(),
{
    scan_through_document(flags);
}

/// The numbers of flags that all hold `width` numbers, laid end to end, fall
/// apart into those flags again at every multiple of `width`.
proof fn flatten_of_uniform<T>(flags: Seq<Seq<T>>, width: nat)
    requires
        forall|k: int| 0 <= k < flags.len() ==> (#[trigger] flags[k]).len() == width,
    ensures
        flags.flatten().len() == flags.len() * width,
        forall|k: int|
            0 <= k < flags.len() ==> #[trigger] flags.flatten().subrange(
                k * width,
                (k + 1) * width,
            ) == flags[k],
    decreases flags.len(),
{
    if flags.len() == 0 {
        assert(flags.flatten() =~= Seq::<T>::empty());
    } else {
        let init = flags.drop_last();
        let last = flags.last();
        flatten_of_uniform(init, width);
        assert(flags =~= init.push(last));
        init.lemma_flatten_push(last);
        let flat = flags.flatten();
        assert(flat =~= init.flatten() + last);
        assert(flags.len() * width == init.len() * width + width) by (nonlinear_arith)
            requires
                flags.len() == init.len() + 1,
        ;
        assert forall|k: int| 0 <= k < flags.len() implies #[trigger] flat.subrange(
            k * width,
            (k + 1) * width,
        ) == flags[k] by {
            assert(0 <= k * width && (k + 1) * width == k * width + width && (k < init.len() ==> (k
                + 1) * width <= init.len() * width) && (k == init.len() ==> k * width
                == init.len() * width)) by (nonlinear_arith)
                requires
                    0 <= k,
            ;
            if k < init.len() {
                assert(flat.subrange(k * width, (k + 1) * width) =~= init.flatten().subrange(
                    k * width,
                    (k + 1) * width,
                ));
                assert(init[k] == flags[k]);
            } else {
                assert(flat.subrange(k * width, (k + 1) * width) =~= last);
            }
        }
    }
}

/// Regrouping undoes laying end to end: the numbers of flags of dimension
/// `dim`, each complete, regroup into the same flags.
pub proof fn records_of_flatten<T>(flags: Seq<Seq<T>>, dim: nat)
    requires
        dim >= 1,
        forall|k: int| 0 <= k < flags.len() ==> (#[trigger] flags[k]).len() == dim * dim,
    ensures
        records(flags.flatten(), dim) == flags,
{
    let width = dim * dim;
    flatten_of_uniform(flags, width);
    assert(width >= 1 && (flags.len() * width) / width == flags.len()) by (nonlinear_arith)
        requires
            width == dim * dim,
            dim >= 1,
    ;
    assert(records(flags.flatten(), dim) =~= flags);
}

/// Writing a list of flags and reading the text back gives the same flags,
/// number for number and as many of them, as long as every flag is complete
/// and each number was written as a word.
pub proof fn cache_round_trip(flags: Seq<Seq<Seq<char>>>, dim: nat)
    requires
        dim >= 1,
        forall|k: int| 0 <= k < flags.len() ==> (#[trigger] flags[k]).len() == dim * dim,
        forall|k: int, i: int|
            0 <= k < flags.len() && 0 <= i < flags[k].len() ==> is_word(#[trigger] flags[k][i]),
    ensures
        records(tokens(document(flags)), dim) == flags,
{
    tokens_of_document(flags);
    records_of_flatten(flags, dim);
}

} // verus!
