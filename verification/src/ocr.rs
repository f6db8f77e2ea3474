//! Run lengths read from recognised text.
//!
//! The text holds groups of numbers: the numbers of a group stand side by side, parted by
//! white space. The first groups are the columns of the puzzle, the groups after them its
//! rows.

use regex::Regex;
use vstd::prelude::*;
use vstd::string::*;

use crate::grid::constraints::{checked, ConstraintError};
use crate::grid::Constraints;
use crate::solver::line_solver_optimized::copy_numbers;
use crate::solver::state_key::texts;

verus! {

/// Why recognised text gave no run lengths.
#[derive(Debug, Clone, Copy, PartialEq, Eq, Structural)]
pub enum OcrError {
    /// The pattern of a group of numbers was refused.
    PatternRefused,
    /// The text holds `found` groups of numbers, fewer than the puzzle has lines.
    TooFewGroups { found: usize },
    /// The groups do not make constraints of a puzzle of the given size.
    Invalid(ConstraintError),
}

/// The pattern of a group of numbers: digits, and more digits after white space.
pub open spec fn group_pattern() -> Seq<char> {
    r"(\d+(?:\s+\d+)*)"@
}

/// The matches of the regular expression `pattern` in `text`, first to last, none of them
/// overlapping another; `None` where `pattern` is refused as a regular expression.
pub uninterp spec fn regex_matches(pattern: Seq<char>, text: Seq<char>) -> Option<Seq<Seq<char>>>;

/// `c` is white space: one of the characters to which Unicode gives the property
/// White_Space.
pub open spec fn is_white_space(c: char) -> bool {
    ('\u{9}' <= c <= '\u{d}') || c == ' ' || c == '\u{85}' || c == '\u{a0}' || c == '\u{1680}' || (
    '\u{2000}' <= c <= '\u{200a}') || c == '\u{2028}' || c == '\u{2029}' || c == '\u{202f}' || c
        == '\u{205f}' || c == '\u{3000}'
}

/// The words that end among the first `n` characters of `text`, and the characters of the
/// word that has not ended yet.
pub open spec fn words_upto(text: Seq<char>, n: int) -> (Seq<Seq<char>>, Seq<char>)
    decreases n,
{
    if n <= 0 {
        (Seq::empty(), Seq::empty())
    } else {
        let before = words_upto(text, n - 1);
        if !is_white_space(text[n - 1]) {
            (before.0, before.1.push(text[n - 1]))
        } else if before.1.len() > 0 {
            (before.0.push(before.1), Seq::empty())
        } else {
            before
        }
    }
}

/// The words of `text`: its longest stretches without white space, first to last.
pub open spec fn words_of(text: Seq<char>) -> Seq<Seq<char>> {
    let all = words_upto(text, text.len() as int);
    if all.1.len() > 0 {
        all.0.push(all.1)
    } else {
        all.0
    }
}

/// Finds every match of `pattern` in `text` with `Regex::new` and `Regex::find_iter` of the
/// crate `regex`.
///
/// Trusted: that the strings returned are the matches, in the order in which they lie in
/// the text, and that `None` comes exactly where `Regex::new` refuses the pattern. Nothing
/// is said of what a pattern matches.
#[verifier::external_body]
fn find_all(pattern: &str, text: &str) -> (found: Option<Vec<String>>)
    ensures
        match found {
            Some(matches) => regex_matches(pattern@, text@) == Some(texts(matches@)),
            None => regex_matches(pattern@, text@) is None,
        },
{
    match Regex::new(pattern) {
        Ok(compiled) => Some(compiled.find_iter(text).map(|m| m.as_str().to_string()).collect()),
        Err(_) => None,
    }
}

/// Splits `text` at white space with `str::split_whitespace`.
///
/// Trusted: that the strings returned are the longest stretches of the text without a
/// character of the Unicode property White_Space, in their order.
#[verifier::external_body]
fn split_words(text: &str) -> (words: Vec<String>)
    ensures
        texts(words@) == words_of(text@),
{
    text.split_whitespace().map(|word| word.to_string()).collect()
}

/// `c` is one of the digits `0` to `9`.
pub open spec fn is_digit(c: char) -> bool {
    '0' <= c <= '9'
}

/// The number that the digits `digits` stand for.
pub open spec fn digits_value(digits: Seq<char>) -> int
    decreases digits.len(),
{
    if digits.len() == 0 {
        0
    } else {
        digits_value(digits.drop_last()) * 10 + (digits.last() as int - '0' as int)
    }
}

/// Every character of `text` is a digit.
pub open spec fn all_digits(text: Seq<char>) -> bool {
    forall|i: int| 0 <= i < text.len() ==> is_digit(#[trigger] text[i])
}

/// `word` without the plus sign that it may begin with.
pub open spec fn unsigned(word: Seq<char>) -> Seq<char> {
    if word.len() > 0 && word[0] == '+' {
        word.skip(1)
    } else {
        word
    }
}

/// The number that `word` stands for: digits only, after a plus sign or without one, and
/// no more than a `usize` holds.
pub open spec fn number_of(word: Seq<char>) -> Option<usize> {
    let digits = unsigned(word);
    if digits.len() > 0 && all_digits(digits) && digits_value(digits) <= usize::MAX {
        Some(digits_value(digits) as usize)
    } else {
        None
    }
}

/// The numbers that the first `n` of `words` stand for; a word that stands for no number is
/// passed over.
pub open spec fn numbers_upto(words: Seq<Seq<char>>, n: int) -> Seq<usize>
    decreases n,
{
    if n <= 0 {
        Seq::empty()
    } else {
        let before = numbers_upto(words, n - 1);
        match number_of(words[n - 1]) {
            Some(number) => before.push(number),
            None => before,
        }
    }
}

/// The numbers that `words` stand for.
pub open spec fn numbers_of(words: Seq<Seq<char>>) -> Seq<usize> {
    numbers_upto(words, words.len() as int)
}

/// The numbers of each of the first `n` of `groups`; a group without numbers is passed over.
pub open spec fn lists_upto(groups: Seq<Seq<char>>, n: int) -> Seq<Seq<usize>>
    decreases n,
{
    if n <= 0 {
        Seq::empty()
    } else {
        let before = lists_upto(groups, n - 1);
        let numbers = numbers_of(words_of(groups[n - 1]));
        if numbers.len() > 0 {
            before.push(numbers)
        } else {
            before
        }
    }
}

/// The lists of `lists`, each as a sequence.
pub open spec fn views(lists: Seq<Vec<usize>>) -> Seq<Seq<usize>> {
    Seq::new(lists.len(), |i: int| lists[i]@)
}

/// The value of digits is never negative, and grows with every digit.
pub proof fn lemma_digits_value(digits: Seq<char>, n: int)
    requires
        0 <= n <= digits.len(),
        all_digits(digits),
    ensures
        0 <= digits_value(digits.take(n)) <= digits_value(digits),
    decreases digits.len() - n,
{
    if n == digits.len() {
        assert(digits.take(n) =~= digits);
        lemma_digits_nonnegative(digits);
    } else {
        lemma_digits_value(digits, n + 1);
        assert(digits.take(n + 1).drop_last() =~= digits.take(n));
        assert(is_digit(digits[n]));
        lemma_digits_nonnegative(digits.take(n));
    }
}

/// The value of digits is never negative.
pub proof fn lemma_digits_nonnegative(digits: Seq<char>)
    requires
        all_digits(digits),
    ensures
        0 <= digits_value(digits),
    decreases digits.len(),
{
    if digits.len() > 0 {
        lemma_digits_nonnegative(digits.drop_last());
        assert(is_digit(digits[digits.len() - 1]));
    }
}

/// The number that `word` stands for, as `str::parse::<usize>` reads it: digits only, after
/// a plus sign or without one; `None` for anything else and for a number that is too large.
pub fn parse_number(word: &str) -> (number: Option<usize>)
    ensures
        number == number_of(word@),
{
    if !word.is_ascii() {
        proof {
            let bad = choose|i: int|
                0 <= i < word@.len() && !('\0' <= #[trigger] word@[i] <= '\u{7f}');
            assert(!is_digit(word@[bad]));
            if word@[0] == '+' {
                assert(word@.skip(1)[bad - 1] == word@[bad]);
                assert(!is_digit(word@.skip(1)[bad - 1]));
            }
        }
        return None;
    }
    let length = word.unicode_len();
    let start: usize = if length > 0 && word.get_ascii(0) == 43 {
        1
    } else {
        0
    };
    let ghost digits = unsigned(word@);
    proof {
        if length > 0 {
            assert('\0' <= word@[0] <= '\u{7f}');
        }
    }
    if start == length {
        return None;
    }
    let mut value: usize = 0;
    let mut i: usize = start;
    while i < length
        invariant
            word.is_ascii(),
            length == word@.len(),
            start <= i <= length,
            start <= 1,
            digits == word@.skip(start as int),
            digits == unsigned(word@),
            forall|j: int| 0 <= j < i - start ==> is_digit(#[trigger] digits[j]),
            value == digits_value(digits.take(i - start)),
        decreases length - i,
    {
        let byte = word.get_ascii(i);
        assert(digits[i - start] == word@[i as int]);
        assert('\0' <= word@[i as int] <= '\u{7f}');
        assert(word@[i as int] as int == byte as int);
        if byte < 48 || byte > 57 {
            assert(!is_digit(digits[i - start]));
            return None;
        }
        assert(is_digit(digits[i - start]));
        let digit: usize = (byte - 48) as usize;
        assert(digits.take(i - start + 1).drop_last() =~= digits.take(i - start));
        assert(digits.take(i - start + 1).last() == digits[i - start]);
        if value > (usize::MAX - digit) / 10 {
            proof {
                assert(value * 10 + digit > usize::MAX) by (nonlinear_arith)
                    requires
                        value > (usize::MAX - digit) / 10,
                        0 <= digit <= 9,
                ;
                if all_digits(digits) {
                    lemma_digits_value(digits, i - start + 1);
                }
            }
            return None;
        }
        assert(value * 10 + digit <= usize::MAX) by (nonlinear_arith)
            requires
                value <= (usize::MAX - digit) / 10,
                0 <= digit <= 9,
        ;
        value = value * 10 + digit;
        i += 1;
    }
    assert(digits.take(length - start) =~= digits);
    Some(value)
}

/// The numbers that `words` stand for; a word that stands for no number is passed over.
pub fn numbers_from_words(words: &Vec<String>) -> (numbers: Vec<usize>)
    ensures
        numbers@ == numbers_of(texts(words@)),
{
    let mut numbers: Vec<usize> = Vec::new();
    let mut i: usize = 0;
    while i < words.len()
        invariant
            i <= words@.len(),
            numbers@ == numbers_upto(texts(words@), i as int),
        decreases words@.len() - i,
    {
        match parse_number(words[i].as_str()) {
            Some(number) => {
                numbers.push(number);
            },
            None => {},
        }
        i += 1;
    }
    numbers
}

/// The constraints that lists of numbers make for a puzzle of `width` by `height` cells:
/// the first `width` lists are the columns, the `height` lists after them the rows.
pub fn constraints_from_lists(all: &Vec<Vec<usize>>, width: usize, height: usize) -> (res: Result<
    Constraints,
    OcrError,
>)
    ensures
        match res {
            Ok(k) => {
                &&& all@.len() >= width + height
                &&& k.wf()
                &&& k.width == width
                &&& k.height == height
                &&& views(k.columns@) == views(all@).subrange(0, width as int)
                &&& views(k.rows@) == views(all@).subrange(width as int, width + height)
            },
            Err(OcrError::TooFewGroups { found }) => all@.len() < width + height && found
                == all@.len(),
            Err(OcrError::Invalid(e)) => {
                &&& all@.len() >= width + height
                &&& exists|rows: Vec<Vec<usize>>, columns: Vec<Vec<usize>>|
                    {
                        &&& views(columns@) == views(all@).subrange(0, width as int)
                        &&& views(rows@) == views(all@).subrange(width as int, width + height)
                        &&& #[trigger] checked(width, height, rows, columns, Err(e))
                    }
            },
            Err(OcrError::PatternRefused) => false,
        },
{
    if all.len() < width || all.len() - width < height {
        return Err(OcrError::TooFewGroups { found: all.len() });
    }
    let mut columns: Vec<Vec<usize>> = Vec::new();
    let mut c: usize = 0;
    while c < width
        invariant
            c <= width <= all@.len(),
            columns@.len() == c,
            forall|i: int| 0 <= i < c ==> (#[trigger] columns@[i])@ == all@[i]@,
        decreases width - c,
    {
        columns.push(copy_numbers(all[c].as_slice()));
        c += 1;
    }
    let mut rows: Vec<Vec<usize>> = Vec::new();
    let mut r: usize = 0;
    let total = all.len();
    while r < height
        invariant
            r <= height,
            total == all@.len(),
            width + height <= total,
            rows@.len() == r,
            forall|i: int| 0 <= i < r ==> (#[trigger] rows@[i])@ == all@[width + i]@,
        decreases height - r,
    {
        rows.push(copy_numbers(all[width + r].as_slice()));
        r += 1;
    }
    assert(views(columns@) =~= views(all@).subrange(0, width as int));
    assert(views(rows@) =~= views(all@).subrange(width as int, width + height));
    match Constraints::new(width, height, rows, columns) {
        Ok(k) => Ok(k),
        Err(e) => Err(OcrError::Invalid(e)),
    }
}

/// The lists of numbers of `groups`, each group split into words; a group without numbers
/// is passed over.
pub fn lists_from_groups(groups: &Vec<String>) -> (all: Vec<Vec<usize>>)
    ensures
        views(all@) == lists_upto(texts(groups@), groups@.len() as int),
{
    let mut all: Vec<Vec<usize>> = Vec::new();
    let mut i: usize = 0;
    assert(views(all@) =~= lists_upto(texts(groups@), 0));
    while i < groups.len()
        invariant
            i <= groups@.len(),
            views(all@) == lists_upto(texts(groups@), i as int),
        decreases groups@.len() - i,
    {
        let words = split_words(groups[i].as_str());
        let numbers = numbers_from_words(&words);
        let ghost before = views(all@);
        if numbers.len() > 0 {
            all.push(numbers);
            assert(views(all@) =~= before.push(numbers@));
        }
        i += 1;
    }
    all
}

/// Reads the constraints of a puzzle from recognised text.
pub struct ConstraintExtractor;

impl ConstraintExtractor {
    /// The constraints that the groups of numbers of `text` make for a puzzle of `width` by
    /// `height` cells: the first `width` groups are the columns, the `height` groups after
    /// them the rows.
    pub fn parse_constraints_from_text(text: &str, width: usize, height: usize) -> (res: Result<
        Constraints,
        OcrError,
    >)
        ensures
            match regex_matches(group_pattern(), text@) {
                None => res == Err::<Constraints, OcrError>(OcrError::PatternRefused),
                Some(groups) => {
                    let lists = lists_upto(groups, groups.len() as int);
                    match res {
                        Ok(k) => {
                            &&& lists.len() >= width + height
                            &&& k.wf()
                            &&& k.width == width
                            &&& k.height == height
                            &&& views(k.columns@) == lists.subrange(0, width as int)
                            &&& views(k.rows@) == lists.subrange(width as int, width + height)
                        },
                        Err(OcrError::TooFewGroups { found }) => lists.len() < width + height
                            && found == lists.len(),
                        Err(OcrError::Invalid(e)) => {
                            &&& lists.len() >= width + height
                            &&& exists|rows: Vec<Vec<usize>>, columns: Vec<Vec<usize>>|
                                {
                                    &&& views(columns@) == lists.subrange(0, width as int)
                                    &&& views(rows@) == lists.subrange(
                                        width as int,
                                        width + height,
                                    )
                                    &&& #[trigger] checked(width, height, rows, columns, Err(e))
                                }
                        },
                        Err(OcrError::PatternRefused) => false,
                    }
                },
            },
    {
        let groups = match find_all(r"(\d+(?:\s+\d+)*)", text) {
            Some(found) => found,
            None => {
                return Err(OcrError::PatternRefused);
            },
        };
        let all = lists_from_groups(&groups);
        constraints_from_lists(&all, width, height)
    }
}

/// `lists` brought to `count` lists: cut after the first `count`, or filled up with lists
/// without numbers.
pub open spec fn fitted(lists: Seq<Seq<usize>>, count: int) -> Seq<Seq<usize>> {
    Seq::new(
        count as nat,
        |i: int|
            if i < lists.len() {
                lists[i]
            } else {
                Seq::empty()
            },
    )
}

/// Where the grid lies in a picture and how many cells it has, by its lines.
#[derive(Debug, Clone, Copy, PartialEq, Eq, Structural)]
pub struct GridFrame {
    /// Pixels left of the grid.
    pub grid_x: u32,
    /// Pixels above the grid.
    pub grid_y: u32,
    /// Side of a cell, in pixels.
    pub cell_size: u32,
    /// Number of columns.
    pub grid_width: usize,
    /// Number of rows.
    pub grid_height: usize,
}

/// The frame that lines give: the grid begins at the first lines, a cell is as large as
/// the mean of the first gaps, and there is one cell less than lines in each direction.
pub open spec fn frame_of(horizontal: Seq<u32>, vertical: Seq<u32>) -> GridFrame {
    GridFrame {
        grid_x: vertical[0],
        grid_y: horizontal[0],
        cell_size: (((horizontal[1] - horizontal[0]) + (vertical[1] - vertical[0])) / 2) as u32,
        grid_width: (vertical.len() - 1) as usize,
        grid_height: (horizontal.len() - 1) as usize,
    }
}

/// Reads the constraints of a puzzle from a picture in which the grid is found first.
pub struct AdvancedConstraintExtractor;

impl AdvancedConstraintExtractor {
    /// The frame of the grid, from the positions of its horizontal and vertical lines;
    /// `None` where there are fewer than two lines in a direction.
    pub fn detect_grid(horizontal_lines: &[u32], vertical_lines: &[u32]) -> (frame: Option<
        GridFrame,
    >)
        requires
            horizontal_lines@.len() >= 2 ==> horizontal_lines@[0] <= horizontal_lines@[1],
            vertical_lines@.len() >= 2 ==> vertical_lines@[0] <= vertical_lines@[1],
        ensures
            frame == if horizontal_lines@.len() < 2 || vertical_lines@.len() < 2 {
                None
            } else {
                Some(frame_of(horizontal_lines@, vertical_lines@))
            },
    {
        if horizontal_lines.len() < 2 || vertical_lines.len() < 2 {
            return None;
        }
        let cell_size_h: u64 = (horizontal_lines[1] - horizontal_lines[0]) as u64;
        let cell_size_v: u64 = (vertical_lines[1] - vertical_lines[0]) as u64;
        let cell_size: u32 = ((cell_size_h + cell_size_v) / 2) as u32;
        Some(
            GridFrame {
                grid_x: vertical_lines[0],
                grid_y: horizontal_lines[0],
                cell_size,
                grid_width: vertical_lines.len() - 1,
                grid_height: horizontal_lines.len() - 1,
            },
        )
    }

    /// The groups of numbers of `text`, brought to `expected_count` lists: what is too much
    /// is cut, what lacks is filled up with lists without numbers.
    pub fn parse_constraint_list(text: &str, expected_count: usize) -> (res: Result<
        Vec<Vec<usize>>,
        OcrError,
    >)
        ensures
            match regex_matches(group_pattern(), text@) {
                None => res == Err::<Vec<Vec<usize>>, OcrError>(OcrError::PatternRefused),
                Some(groups) => match res {
                    Ok(lists) => views(lists@) == fitted(
                        lists_upto(groups, groups.len() as int),
                        expected_count as int,
                    ),
                    Err(_) => false,
                },
            },
    {
        let groups = match find_all(r"(\d+(?:\s+\d+)*)", text) {
            Some(found) => found,
            None => {
                return Err(OcrError::PatternRefused);
            },
        };
        let all = lists_from_groups(&groups);
        Ok(fit_lists(&all, expected_count))
    }
}

/// `all` brought to `count` lists: cut after the first `count`, or filled up with lists
/// without numbers.
pub fn fit_lists(all: &Vec<Vec<usize>>, count: usize) -> (lists: Vec<Vec<usize>>)
    ensures
        views(lists@) == fitted(views(all@), count as int),
{
    let mut lists: Vec<Vec<usize>> = Vec::new();
    let mut i: usize = 0;
    while i < count
        invariant
            i <= count,
            lists@.len() == i,
            forall|j: int|
                0 <= j < i ==> (#[trigger] lists@[j])@ == fitted(views(all@), count as int)[j],
        decreases count - i,
    {
        if i < all.len() {
            lists.push(copy_numbers(all[i].as_slice()));
        } else {
            lists.push(Vec::new());
        }
        i += 1;
    }
    assert(views(lists@) =~= fitted(views(all@), count as int));
    lists
}

} // verus!
