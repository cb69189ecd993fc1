//! Word frequencies of a text.
//!
//! A word is a longest run of alphanumeric characters. Words shorter than a
//! given number of bytes are left out; the others are counted and ranked, most
//! frequent first and alphabetically among equals.

use vstd::prelude::*;
use vstd::std_specs::iter::IteratorSpec;
use vstd::string::*;

verus! {

/// Whether a character is alphanumeric, as `char::is_alphanumeric` of the
/// standard library tells it from the Unicode tables.
pub uninterp spec fn alphanumeric(c: char) -> bool;

/// The lower-case form of a text, as `str::to_lowercase` of the standard
/// library gives it: the Unicode mapping of each character, which may change
/// the number of characters.
pub uninterp spec fn lowercase(text: Seq<char>) -> Seq<char>;

/// A character together with whether it belongs to a word.
pub type Classified = (char, bool);

/// Each character of a text with its class.
pub open spec fn classify(text: Seq<char>) -> Seq<Classified> {
    Seq::new(text.len(), |i: int| (text[i], alphanumeric(text[i])))
}

/// The words of a classified text, in order.
///
/// A word character that follows a word character extends the word before
/// it; one that does not begins a new word; any other character changes
/// nothing.
pub open spec fn words(text: Seq<Classified>) -> Seq<Seq<char>>
    decreases text.len(),
{
    if text.len() == 0 {
        Seq::empty()
    } else {
        let before = words(text.drop_last());
        let (c, in_word) = text.last();
        if !in_word {
            before
        } else if text.len() >= 2 && text[text.len() - 2].1 && before.len() > 0 {
            before.drop_last().push(before.last().push(c))
        } else {
            before.push(seq![c])
        }
    }
}

/// The characters of a classified text that belong to words, in order.
pub open spec fn word_characters(text: Seq<Classified>) -> Seq<char>
    decreases text.len(),
{
    if text.len() == 0 {
        Seq::empty()
    } else if text.last().1 {
        word_characters(text.drop_last()).push(text.last().0)
    } else {
        word_characters(text.drop_last())
    }
}

/// No word is empty, there is a word as soon as the text ends in a word
/// character, and the words laid end to end are the word characters of the
/// text: splitting drops what lies between words and nothing else.
pub proof fn lemma_words_hold_the_word_characters(text: Seq<Classified>)
    ensures
        forall|i: int| 0 <= i < words(text).len() ==> (#[trigger] words(text)[i]).len() > 0,
        text.len() > 0 && text.last().1 ==> words(text).len() > 0,
        words(text).flatten() == word_characters(text),
    decreases text.len(),
{
    if text.len() == 0 {
        assert(words(text).flatten() =~= Seq::<char>::empty());
    } else {
        let shorter = text.drop_last();
        let before = words(shorter);
        let c = text.last().0;
        lemma_words_hold_the_word_characters(shorter);
        if text.last().1 {
            if text.len() >= 2 && text[text.len() - 2].1 {
                assert(shorter.last() == text[text.len() - 2]);
                let grown = before.last().push(c);
                assert(before =~= before.drop_last().push(before.last()));
                before.drop_last().lemma_flatten_push(before.last());
                before.drop_last().lemma_flatten_push(grown);
                assert(words(text).flatten() =~= before.flatten().push(c));
            } else {
                before.lemma_flatten_push(seq![c]);
                assert(words(text).flatten() =~= before.flatten().push(c));
            }
        }
    }
}

/// The number of bytes that a character takes in UTF-8.
pub open spec fn utf8_width(c: char) -> nat {
    let code = c as u32;
    if code < 0x80 {
        1
    } else if code < 0x800 {
        2
    } else if code < 0x1_0000 {
        3
    } else {
        4
    }
}

/// The number of bytes that a word takes in UTF-8.
pub open spec fn byte_len(word: Seq<char>) -> nat
    decreases word.len(),
{
    if word.len() == 0 {
        0
    } else {
        byte_len(word.drop_last()) + utf8_width(word.last())
    }
}

/// The words that a list of character vectors holds.
pub open spec fn texts(list: Seq<Vec<char>>) -> Seq<Seq<char>> {
    Seq::new(list.len(), |i: int| list[i]@)
}

/// Calls `char::is_alphanumeric` of the standard library.
///
/// The answer is a function of the character alone and goes by the name
/// [`alphanumeric`]; nothing more is claimed of it.
#[verifier::external_body]
fn is_alphanumeric(c: char) -> (answer: bool)
    ensures
        answer == alphanumeric(c),
{
    c.is_alphanumeric()
}

/// Calls `str::to_lowercase` of the standard library.
///
/// The result is a function of the text alone and goes by the name
/// [`lowercase`]; nothing more is claimed of it.
#[verifier::external_body]
fn to_lowercase(text: &str) -> (lower: String)
    ensures
        lower@ == lowercase(text@),
{
    text.to_lowercase()
}

/// Reads a text character by character and notes of each whether it is
/// alphanumeric.
pub fn classify_text(text: &str) -> (out: Vec<Classified>)
    ensures
        out@ == classify(text@),
{
    broadcast use {axiom_spec_iter, next_postcondition};

    let mut out: Vec<Classified> = Vec::new();
    let mut rest = text.chars();
    loop
        invariant
            out@.len() <= text@.len(),
            out@ == classify(text@.take(out@.len() as int)),
            text@.skip(out@.len() as int) == rest.remaining(),
        decreases text@.len() - out@.len(),
    {
        let ghost n = out@.len() as int;
        match rest.next() {
            Some(c) => {
                assert(c == text@.skip(n)[0]);
                out.push((c, is_alphanumeric(c)));
                assert(text@.skip(n).drop_first() =~= text@.skip(n + 1));
                assert(out@ =~= classify(text@.take(n + 1)));
            },
            None => {
                assert(text@.skip(n).len() == 0);
                assert(text@.take(n) =~= text@);
                return out;
            },
        }
    }
}

/// Splits a classified text into its words.
pub fn split_words(text: &[Classified]) -> (out: Vec<Vec<char>>)
    ensures
        texts(out@) == words(text@),
{
    let mut out: Vec<Vec<char>> = Vec::new();
    let mut current: Vec<char> = Vec::new();
    let mut i: usize = 0;
    assert(text@.take(0) =~= Seq::<Classified>::empty());
    assert(texts(out@) =~= Seq::<Seq<char>>::empty());
    while i < text.len()
        invariant
            i <= text.len(),
            current@.len() > 0 <==> (i > 0 && text@[i - 1].1),
            words(text@.take(i as int)) == if current@.len() > 0 {
                texts(out@).push(current@)
            } else {
                texts(out@)
            },
        decreases text.len() - i,
    {
        let (c, in_word) = text[i];
        let ghost seen = text@.take(i as int);
        let ghost next = text@.take(i + 1);
        let ghost done = texts(out@);
        proof {
            assert(next.drop_last() =~= seen);
            assert(next.last() == text@[i as int]);
            if i > 0 {
                assert(next[next.len() - 2] == text@[i - 1]);
            }
        }
        if in_word {
            let ghost word = current@;
            current.push(c);
            proof {
                if word.len() > 0 {
                    let before = done.push(word);
                    assert(before.drop_last() =~= done);
                    assert(before.last() == word);
                    assert(words(next) == done.push(word.push(c)));
                } else {
                    assert(current@ =~= seq![c]);
                    assert(words(next) == done.push(seq![c]));
                }
            }
        } else if current.len() > 0 {
            let ghost word = current@;
            out.push(current);
            current = Vec::new();
            assert(texts(out@) =~= done.push(word));
            assert(words(next) == done.push(word));
        } else {
            assert(words(next) == done);
        }
        i += 1;
    }
    assert(text@.take(i as int) =~= text@);
    if current.len() > 0 {
        let ghost done = texts(out@);
        let ghost word = current@;
        out.push(current);
        assert(texts(out@) =~= done.push(word));
    }
    out
}

/// A word and the number of times it occurs.
#[derive(Debug, PartialEq, Eq)]
pub struct WordCount {
    /// The word, character by character.
    pub word: Vec<char>,
    /// How often it occurs.
    pub count: usize,
}

/// How often a word occurs in a list.
pub open spec fn occurrences(list: Seq<Seq<char>>, word: Seq<char>) -> nat
    decreases list.len(),
{
    if list.len() == 0 {
        0
    } else {
        occurrences(list.drop_last(), word) + if list.last() == word {
            1nat
        } else {
            0nat
        }
    }
}

/// Whether one word comes before another in the order of a dictionary that
/// sorts characters by their code points.
pub open spec fn word_less(a: Seq<char>, b: Seq<char>) -> bool
    decreases a.len(),
{
    if b.len() == 0 {
        false
    } else if a.len() == 0 {
        true
    } else if a[0] != b[0] {
        (a[0] as u32) < (b[0] as u32)
    } else {
        word_less(a.skip(1), b.skip(1))
    }
}

/// Whether one row stands above another in the ranking: it has the higher
/// count, or the same count and the earlier word.
pub open spec fn ranks_before(a: WordCount, b: WordCount) -> bool {
    a.count > b.count || (a.count == b.count && word_less(a.word@, b.word@))
}

/// Whether no word has two rows in a table.
pub open spec fn distinct_words(table: Seq<WordCount>) -> bool {
    forall|i: int, j: int|
        0 <= i < j < table.len() ==> (#[trigger] table[i]).word@ != (#[trigger] table[j]).word@
}

/// Whether a table counts the words of a list: every word of the list that
/// takes at least `min_len` bytes has one row, the row holds the number of
/// times the word occurs in the list, and there are no other rows.
pub open spec fn is_tally(table: Seq<WordCount>, list: Seq<Seq<char>>, min_len: nat) -> bool {
    &&& forall|i: int|
        0 <= i < table.len() ==> {
            &&& byte_len((#[trigger] table[i]).word@) >= min_len
            &&& table[i].count > 0
            &&& table[i].count == occurrences(list, table[i].word@)
        }
    &&& distinct_words(table)
    &&& forall|word: Seq<char>|
        #[trigger] occurrences(list, word) > 0 && byte_len(word) >= min_len ==> has_row(
            table,
            word,
        )
}

/// Whether a table has a row for a word.
pub open spec fn has_row(table: Seq<WordCount>, word: Seq<char>) -> bool {
    exists|i: int| 0 <= i < table.len() && (#[trigger] table[i]).word@ == word
}

/// Whether the rows of a table stand in ranking order, each above all that
/// follow it.
pub open spec fn is_ranked(table: Seq<WordCount>) -> bool {
    forall|i: int, j: int|
        0 <= i < j < table.len() ==> ranks_before(#[trigger] table[i], #[trigger] table[j])
}

/// A word occurs in a list at most as often as the list is long.
proof fn lemma_occurrences_bound(list: Seq<Seq<char>>, word: Seq<char>)
    ensures
        occurrences(list, word) <= list.len(),
    decreases list.len(),
{
    if list.len() > 0 {
        lemma_occurrences_bound(list.drop_last(), word);
    }
}

/// A word takes at least as many bytes as any of its beginnings.
proof fn lemma_byte_len_grows(word: Seq<char>, shorter: int)
    requires
        0 <= shorter <= word.len(),
    ensures
        byte_len(word.take(shorter)) <= byte_len(word),
    decreases word.len(),
{
    if shorter == word.len() {
        assert(word.take(shorter) =~= word);
    } else {
        lemma_byte_len_grows(word.drop_last(), shorter);
        assert(word.drop_last().take(shorter) =~= word.take(shorter));
    }
}

/// No word comes before itself.
proof fn lemma_word_less_irreflexive(a: Seq<char>)
    ensures
        !word_less(a, a),
    decreases a.len(),
{
    if a.len() > 0 {
        lemma_word_less_irreflexive(a.skip(1));
    }
}

/// Of two different words one comes before the other.
proof fn lemma_word_less_total(a: Seq<char>, b: Seq<char>)
    requires
        a != b,
    ensures
        word_less(a, b) || word_less(b, a),
    decreases a.len(),
{
    if a.len() > 0 && b.len() > 0 && a[0] == b[0] {
        assert(a.skip(1) != b.skip(1)) by {
            if a.skip(1) == b.skip(1) {
                assert(a =~= seq![a[0]] + a.skip(1));
                assert(b =~= seq![b[0]] + b.skip(1));
            }
        }
        lemma_word_less_total(a.skip(1), b.skip(1));
    } else if a.len() > 0 && b.len() > 0 {
        let (x, y) = (a[0] as u32, b[0] as u32);
        assert(x != y) by {
            vstd::utf8::char_u32_cast(a[0], x);
            vstd::utf8::char_u32_cast(b[0], y);
        }
    } else {
        assert(!(a.len() == 0 && b.len() == 0)) by {
            if a.len() == 0 && b.len() == 0 {
                assert(a =~= b);
            }
        }
    }
}

/// The order of words is transitive.
proof fn lemma_word_less_transitive(a: Seq<char>, b: Seq<char>, c: Seq<char>)
    requires
        word_less(a, b),
        word_less(b, c),
    ensures
        word_less(a, c),
    decreases a.len(),
{
    if a.len() > 0 && b.len() > 0 && c.len() > 0 && a[0] == b[0] && b[0] == c[0] {
        lemma_word_less_transitive(a.skip(1), b.skip(1), c.skip(1));
    }
}

/// The ranking order is transitive.
proof fn lemma_ranks_before_transitive(a: WordCount, b: WordCount, c: WordCount)
    requires
        ranks_before(a, b),
        ranks_before(b, c),
    ensures
        ranks_before(a, c),
{
    if a.count == b.count && b.count == c.count {
        lemma_word_less_transitive(a.word@, b.word@, c.word@);
    }
}

/// Whether two words are the same.
fn same_word(a: &[char], b: &[char]) -> (same: bool)
    ensures
        same == (a@ == b@),
{
    if a.len() != b.len() {
        return false;
    }
    let mut i: usize = 0;
    while i < a.len()
        invariant
            a@.len() == b@.len(),
            i <= a.len(),
            forall|k: int| 0 <= k < i ==> a@[k] == b@[k],
        decreases a.len() - i,
    {
        if a[i] != b[i] {
            return false;
        }
        i += 1;
    }
    assert(a@ =~= b@);
    true
}

/// Whether one word comes before another in dictionary order.
fn word_before(a: &[char], b: &[char]) -> (before: bool)
    ensures
        before == word_less(a@, b@),
{
    let mut i: usize = 0;
    assert(a@.skip(0) =~= a@ && b@.skip(0) =~= b@);
    while i < a.len() && i < b.len()
        invariant
            i <= a.len(),
            i <= b.len(),
            word_less(a@, b@) == word_less(a@.skip(i as int), b@.skip(i as int)),
        decreases a.len() - i,
    {
        if a[i] != b[i] {
            return (a[i] as u32) < (b[i] as u32);
        }
        assert(a@.skip(i as int).skip(1) =~= a@.skip(i + 1));
        assert(b@.skip(i as int).skip(1) =~= b@.skip(i + 1));
        i += 1;
    }
    i < b.len()
}

/// The number of bytes that a character takes in UTF-8.
fn width_of(c: char) -> (width: usize)
    ensures
        width == utf8_width(c),
        1 <= width <= 4,
{
    let code = c as u32;
    if code < 0x80 {
        1
    } else if code < 0x800 {
        2
    } else if code < 0x1_0000 {
        3
    } else {
        4
    }
}

/// Whether a word takes at least `min_len` bytes in UTF-8.
fn is_long_enough(word: &[char], min_len: usize) -> (long: bool)
    ensures
        long == (byte_len(word@) >= min_len),
{
    let mut missing: usize = min_len;
    let mut i: usize = 0;
    assert(word@.take(0) =~= Seq::<char>::empty());
    while i < word.len()
        invariant
            i <= word.len(),
            0 < missing <= min_len || (missing == 0 && min_len == 0),
            byte_len(word@.take(i as int)) + missing == min_len,
        decreases word.len() - i,
    {
        let width = width_of(word[i]);
        proof {
            assert(word@.take(i + 1).drop_last() =~= word@.take(i as int));
            lemma_byte_len_grows(word@, i + 1);
        }
        if width >= missing {
            return true;
        }
        missing -= width;
        i += 1;
    }
    assert(word@.take(i as int) =~= word@);
    missing == 0
}

/// A copy of a word.
fn copy_word(word: &[char]) -> (copy: Vec<char>)
    ensures
        copy@ == word@,
{
    let mut copy: Vec<char> = Vec::new();
    let mut i: usize = 0;
    while i < word.len()
        invariant
            i <= word.len(),
            copy@ == word@.take(i as int),
        decreases word.len() - i,
    {
        copy.push(word[i]);
        assert(copy@ =~= word@.take(i + 1));
        i += 1;
    }
    assert(word@.take(i as int) =~= word@);
    copy
}

/// The row of a word in a table, if it has one.
fn find_row(table: &Vec<WordCount>, word: &[char]) -> (row: Option<usize>)
    ensures
        match row {
            Some(i) => i < table@.len() && table@[i as int].word@ == word@,
            None => !has_row(table@, word@),
        },
{
    let mut i: usize = 0;
    while i < table.len()
        invariant
            i <= table.len(),
            forall|k: int| 0 <= k < i ==> (#[trigger] table@[k]).word@ != word@,
        decreases table.len() - i,
    {
        if same_word(table[i].word.as_slice(), word) {
            return Some(i);
        }
        i += 1;
    }
    None
}

/// One more word in a list raises the count of that word by one and leaves
/// every other count as it was.
proof fn lemma_occurrences_push(list: Seq<Seq<char>>, word: Seq<char>, other: Seq<char>)
    ensures
        occurrences(list.push(word), other) == occurrences(list, other) + if other == word {
            1nat
        } else {
            0nat
        },
{
    assert(list.push(word).drop_last() =~= list);
}

/// A tally stays one when the list grows by a word that is too short.
proof fn lemma_tally_skips(
    table: Seq<WordCount>,
    list: Seq<Seq<char>>,
    word: Seq<char>,
    min_len: nat,
)
    requires
        is_tally(table, list, min_len),
        byte_len(word) < min_len,
    ensures
        is_tally(table, list.push(word), min_len),
{
    let longer = list.push(word);
    assert forall|a: int| 0 <= a < table.len() implies {
        &&& byte_len((#[trigger] table[a]).word@) >= min_len
        &&& table[a].count > 0
        &&& table[a].count == occurrences(longer, table[a].word@)
    } by {
        lemma_occurrences_push(list, word, table[a].word@);
    }
    assert forall|other: Seq<char>| #[trigger]
        occurrences(longer, other) > 0 && byte_len(other) >= min_len implies has_row(
        table,
        other,
    ) by {
        lemma_occurrences_push(list, word, other);
    }
}

/// A tally stays one when the list grows by a word that has a row and the
/// count in that row goes up by one.
proof fn lemma_tally_counts_again(
    table: Seq<WordCount>,
    after: Seq<WordCount>,
    row: int,
    list: Seq<Seq<char>>,
    word: Seq<char>,
    min_len: nat,
)
    requires
        is_tally(table, list, min_len),
        0 <= row < table.len(),
        table[row].word@ == word,
        after.len() == table.len(),
        after[row].word@ == word,
        after[row].count == table[row].count + 1,
        forall|a: int| 0 <= a < table.len() && a != row ==> after[a] == table[a],
    ensures
        is_tally(after, list.push(word), min_len),
{
    let longer = list.push(word);
    assert forall|a: int| 0 <= a < after.len() implies (#[trigger] after[a]).word@
        == table[a].word@ by {}
    assert forall|a: int| 0 <= a < after.len() implies {
        &&& byte_len((#[trigger] after[a]).word@) >= min_len
        &&& after[a].count > 0
        &&& after[a].count == occurrences(longer, after[a].word@)
    } by {
        lemma_occurrences_push(list, word, after[a].word@);
        if a < row {
            assert(table[a].word@ != table[row].word@);
        } else if a > row {
            assert(table[row].word@ != table[a].word@);
        }
    }
    assert forall|a: int, b: int| 0 <= a < b < after.len() implies (#[trigger] after[a]).word@
        != (#[trigger] after[b]).word@ by {
        assert(table[a].word@ != table[b].word@);
    }
    assert forall|other: Seq<char>| #[trigger]
        occurrences(longer, other) > 0 && byte_len(other) >= min_len implies has_row(
        after,
        other,
    ) by {
        lemma_occurrences_push(list, word, other);
        if other == word {
            assert(after[row].word@ == other);
        } else {
            assert(has_row(table, other));
            let r = choose|r: int| 0 <= r < table.len() && (#[trigger] table[r]).word@ == other;
            assert(after[r].word@ == other);
        }
    }
}

/// A tally stays one when the list grows by a word that is long enough and
/// has no row yet, and the table grows by a row that counts it once.
proof fn lemma_tally_adds(
    table: Seq<WordCount>,
    row: WordCount,
    list: Seq<Seq<char>>,
    min_len: nat,
)
    requires
        is_tally(table, list, min_len),
        !has_row(table, row.word@),
        byte_len(row.word@) >= min_len,
        row.count == 1,
    ensures
        is_tally(table.push(row), list.push(row.word@), min_len),
{
    let word = row.word@;
    let longer = list.push(word);
    let after = table.push(row);
    assert(occurrences(list, word) == 0);
    assert forall|a: int| 0 <= a < table.len() implies (#[trigger] table[a]).word@ != word by {}
    assert forall|a: int| 0 <= a < after.len() implies {
        &&& byte_len((#[trigger] after[a]).word@) >= min_len
        &&& after[a].count > 0
        &&& after[a].count == occurrences(longer, after[a].word@)
    } by {
        lemma_occurrences_push(list, word, after[a].word@);
        if a < table.len() {
            assert(after[a] == table[a]);
        }
    }
    assert forall|a: int, b: int| 0 <= a < b < after.len() implies (#[trigger] after[a]).word@
        != (#[trigger] after[b]).word@ by {
        assert(after[a] == table[a]);
        if b < table.len() {
            assert(after[b] == table[b]);
        }
    }
    assert forall|other: Seq<char>| #[trigger]
        occurrences(longer, other) > 0 && byte_len(other) >= min_len implies has_row(
        after,
        other,
    ) by {
        lemma_occurrences_push(list, word, other);
        if other == word {
            assert(after[after.len() - 1].word@ == other);
        } else {
            assert(has_row(table, other));
            let r = choose|r: int| 0 <= r < table.len() && (#[trigger] table[r]).word@ == other;
            assert(after[r].word@ == other);
        }
    }
}

/// Counts the words of a list that take at least `min_len` bytes.
fn tally_words(list: &Vec<Vec<char>>, min_len: usize) -> (table: Vec<WordCount>)
    ensures
        is_tally(table@, texts(list@), min_len as nat),
{
    let mut table: Vec<WordCount> = Vec::new();
    let mut k: usize = 0;
    let ghost all = texts(list@);
    assert(all.take(0) =~= Seq::<Seq<char>>::empty());
    while k < list.len()
        invariant
            k <= list.len(),
            all == texts(list@),
            is_tally(table@, all.take(k as int), min_len as nat),
        decreases list.len() - k,
    {
        let word = list[k].as_slice();
        let ghost seen = all.take(k as int);
        let ghost old_table = table@;
        proof {
            assert(all.take(k + 1) =~= seen.push(word@));
            lemma_occurrences_bound(seen, word@);
        }
        if is_long_enough(word, min_len) {
            match find_row(&table, word) {
                Some(i) => {
                    let count = table[i].count + 1;
                    table.set(i, WordCount { word: copy_word(word), count });
                    proof {
                        lemma_tally_counts_again(
                            old_table,
                            table@,
                            i as int,
                            seen,
                            word@,
                            min_len as nat,
                        );
                    }
                },
                None => {
                    let row = WordCount { word: copy_word(word), count: 1 };
                    proof {
                        lemma_tally_adds(old_table, row, seen, min_len as nat);
                    }
                    table.push(row);
                },
            }
        } else {
            proof {
                lemma_tally_skips(old_table, seen, word@, min_len as nat);
            }
        }
        k += 1;
    }
    assert(all.take(k as int) =~= all);
    table
}

/// Whether a table has, at row `from` or below, a row with the word and the
/// count of `row`.
spec fn has_same_row(table: Seq<WordCount>, from: int, row: WordCount) -> bool {
    exists|j: int|
        from <= j < table.len() && (#[trigger] table[j]).word@ == row.word@ && table[j].count
            == row.count
}

/// Whether two tables hold the same rows, in whatever order.
spec fn same_rows(a: Seq<WordCount>, b: Seq<WordCount>) -> bool {
    &&& a.len() == b.len()
    &&& forall|i: int| 0 <= i < a.len() ==> has_same_row(b, 0, #[trigger] a[i])
    &&& forall|j: int| 0 <= j < b.len() ==> has_same_row(a, 0, #[trigger] b[j])
}

/// A ranked table with the rows of a tally is a tally of the same list.
proof fn lemma_ranked_tally(
    ranked: Seq<WordCount>,
    table: Seq<WordCount>,
    list: Seq<Seq<char>>,
    min_len: nat,
)
    requires
        is_tally(table, list, min_len),
        same_rows(ranked, table),
        is_ranked(ranked),
    ensures
        is_tally(ranked, list, min_len),
{
    assert forall|i: int| 0 <= i < ranked.len() implies {
        &&& byte_len((#[trigger] ranked[i]).word@) >= min_len
        &&& ranked[i].count > 0
        &&& ranked[i].count == occurrences(list, ranked[i].word@)
    } by {
        assert(has_same_row(table, 0, ranked[i]));
    }
    assert forall|i: int, j: int| 0 <= i < j < ranked.len() implies (#[trigger] ranked[i]).word@
        != (#[trigger] ranked[j]).word@ by {
        if ranked[i].word@ == ranked[j].word@ {
            assert(has_same_row(table, 0, ranked[i]));
            assert(has_same_row(table, 0, ranked[j]));
            assert(ranked[i].count == ranked[j].count);
            assert(ranks_before(ranked[i], ranked[j]));
            lemma_word_less_irreflexive(ranked[i].word@);
        }
    }
    assert forall|word: Seq<char>| #[trigger]
        occurrences(list, word) > 0 && byte_len(word) >= min_len implies has_row(ranked, word) by {
        assert(has_row(table, word));
        let j = choose|j: int| 0 <= j < table.len() && (#[trigger] table[j]).word@ == word;
        assert(has_same_row(ranked, 0, table[j]));
    }
}

/// Two ranked tallies of one list agree on the words of their first `n` rows.
proof fn lemma_ranked_tallies_agree_upto(
    a: Seq<WordCount>,
    b: Seq<WordCount>,
    list: Seq<Seq<char>>,
    min_len: nat,
    n: int,
)
    requires
        is_tally(a, list, min_len),
        is_ranked(a),
        is_tally(b, list, min_len),
        is_ranked(b),
        0 <= n <= a.len(),
        n <= b.len(),
    ensures
        forall|i: int| 0 <= i < n ==> (#[trigger] a[i]).word@ == b[i].word@,
    decreases n,
{
    if n > 0 {
        lemma_ranked_tallies_agree_upto(a, b, list, min_len, n - 1);
        let i = n - 1;
        let w = a[i].word@;
        let v = b[i].word@;
        assert(has_row(b, w)) by {
            assert(occurrences(list, w) > 0);
        }
        assert(has_row(a, v)) by {
            assert(occurrences(list, v) > 0);
        }
        let j = choose|j: int| 0 <= j < b.len() && (#[trigger] b[j]).word@ == w;
        let k = choose|k: int| 0 <= k < a.len() && (#[trigger] a[k]).word@ == v;
        if j < i {
            assert(a[j].word@ == b[j].word@);
            assert(a[j].word@ != a[i].word@);
        } else if k < i {
            assert(a[k].word@ == b[k].word@);
            assert(b[k].word@ != b[i].word@);
        } else if j > i && k > i {
            assert(ranks_before(b[i], b[j]));
            assert(ranks_before(a[i], a[k]));
            assert(b[j].count == a[i].count);
            assert(a[k].count == b[i].count);
            lemma_word_less_transitive(v, w, v);
            lemma_word_less_irreflexive(v);
        }
    }
}

/// A list has one ranked tally and no other: two tables that both count the
/// words of a list and both stand in ranking order have the same number of
/// rows, and row for row the same word and the same count.
pub proof fn lemma_ranked_tally_is_unique(
    a: Seq<WordCount>,
    b: Seq<WordCount>,
    list: Seq<Seq<char>>,
    min_len: nat,
)
    requires
        is_tally(a, list, min_len),
        is_ranked(a),
        is_tally(b, list, min_len),
        is_ranked(b),
    ensures
        a.len() == b.len(),
        forall|i: int|
            0 <= i < a.len() ==> (#[trigger] a[i]).word@ == b[i].word@ && a[i].count == b[i].count,
{
    let n = if a.len() <= b.len() {
        a.len() as int
    } else {
        b.len() as int
    };
    lemma_ranked_tallies_agree_upto(a, b, list, min_len, n);
    if a.len() < b.len() {
        let v = b[n].word@;
        assert(has_row(a, v)) by {
            assert(occurrences(list, v) > 0);
        }
        let k = choose|k: int| 0 <= k < a.len() && (#[trigger] a[k]).word@ == v;
        assert(a[k].word@ == b[k].word@);
        assert(b[k].word@ != b[n].word@);
    } else if b.len() < a.len() {
        let w = a[n].word@;
        assert(has_row(b, w)) by {
            assert(occurrences(list, w) > 0);
        }
        let j = choose|j: int| 0 <= j < b.len() && (#[trigger] b[j]).word@ == w;
        assert(a[j].word@ == b[j].word@);
        assert(a[j].word@ != a[n].word@);
    }
    assert forall|i: int| 0 <= i < a.len() implies (#[trigger] a[i]).word@ == b[i].word@
        && a[i].count == b[i].count by {
        assert(a[i].word@ == b[i].word@);
        assert(b[i].count == occurrences(list, b[i].word@));
    }
}

/// Whether one row stands above another in the ranking.
fn row_before(a: &WordCount, b: &WordCount) -> (before: bool)
    ensures
        before == ranks_before(*a, *b),
{
    a.count > b.count || (a.count == b.count && word_before(a.word.as_slice(), b.word.as_slice()))
}

/// A row that is put into a ranked table behind all rows that stand above it
/// and before the first that does not leaves the table ranked.
proof fn lemma_insert_keeps_ranking(
    ranked: Seq<WordCount>,
    entry: WordCount,
    p: int,
)
    requires
        is_ranked(ranked),
        0 <= p <= ranked.len(),
        forall|q: int| 0 <= q < p ==> ranks_before(#[trigger] ranked[q], entry),
        p < ranked.len() ==> !ranks_before(ranked[p], entry),
        forall|q: int| 0 <= q < ranked.len() ==> (#[trigger] ranked[q]).word@ != entry.word@,
    ensures
        is_ranked(ranked.insert(p, entry)),
{
    let after = ranked.insert(p, entry);
    assert forall|q: int| p <= q < ranked.len() implies ranks_before(
        entry,
        #[trigger] ranked[q],
    ) by {
        let at = ranked[p];
        lemma_word_less_total(entry.word@, at.word@);
        if q > p {
            assert(ranks_before(ranked[p], ranked[q]));
            lemma_ranks_before_transitive(entry, at, ranked[q]);
        }
    }
    assert forall|i: int, j: int| 0 <= i < j < after.len() implies ranks_before(
        #[trigger] after[i],
        #[trigger] after[j],
    ) by {
        if i < p && j > p {
            assert(ranks_before(ranked[i], ranked[j - 1]));
        } else if i < p && j < p {
            assert(ranks_before(ranked[i], ranked[j]));
        } else if i > p {
            assert(ranks_before(ranked[i - 1], ranked[j - 1]));
        } else if i == p {
            assert(ranks_before(entry, ranked[j - 1]));
        } else {
            assert(ranks_before(ranked[i], entry));
        }
    }
}

/// Moving the last row that is left of a table into the ranked rows keeps
/// the two in step: the ranked rows are the rows taken so far.
proof fn lemma_insert_keeps_rows(
    ranked: Seq<WordCount>,
    all: Seq<WordCount>,
    n: int,
    p: int,
)
    requires
        0 < n <= all.len(),
        0 <= p <= ranked.len(),
        forall|i: int| 0 <= i < ranked.len() ==> has_same_row(all, n, #[trigger] ranked[i]),
        forall|j: int| n <= j < all.len() ==> has_same_row(ranked, 0, #[trigger] all[j]),
    ensures
        forall|i: int|
            0 <= i < ranked.len() + 1 ==> has_same_row(
                all,
                n - 1,
                #[trigger] ranked.insert(p, all[n - 1])[i],
            ),
        forall|j: int|
            n - 1 <= j < all.len() ==> has_same_row(
                ranked.insert(p, all[n - 1]),
                0,
                #[trigger] all[j],
            ),
{
    let entry = all[n - 1];
    let after = ranked.insert(p, entry);
    assert forall|i: int| 0 <= i < after.len() implies has_same_row(
        all,
        n - 1,
        #[trigger] after[i],
    ) by {
        if i == p {
            assert(all[n - 1].word@ == entry.word@);
        } else {
            let before = if i < p {
                i
            } else {
                i - 1
            };
            let row = ranked[before];
            assert(after[i] == row);
            assert(has_same_row(all, n, row));
            let j = choose|j: int|
                n <= j < all.len() && (#[trigger] all[j]).word@ == row.word@ && all[j].count
                    == row.count;
            assert(all[j].word@ == row.word@);
        }
    }
    assert forall|j: int| n - 1 <= j < all.len() implies has_same_row(
        after,
        0,
        #[trigger] all[j],
    ) by {
        if j == n - 1 {
            assert(after[p].word@ == all[j].word@);
        } else {
            assert(has_same_row(ranked, 0, all[j]));
            let i = choose|i: int|
                0 <= i < ranked.len() && (#[trigger] ranked[i]).word@ == all[j].word@
                    && ranked[i].count == all[j].count;
            let moved = if i < p {
                i
            } else {
                i + 1
            };
            assert(after[moved] == ranked[i]);
            assert(after[moved].word@ == all[j].word@);
        }
    }
}

/// The rows taken out of a table of distinct words share no word with the
/// rows still in it.
proof fn lemma_taken_rows_differ(
    ranked: Seq<WordCount>,
    all: Seq<WordCount>,
    n: int,
)
    requires
        0 < n <= all.len(),
        distinct_words(all),
        forall|i: int| 0 <= i < ranked.len() ==> has_same_row(all, n, #[trigger] ranked[i]),
    ensures
        forall|q: int| 0 <= q < ranked.len() ==> (#[trigger] ranked[q]).word@ != all[n - 1].word@,
{
    assert forall|q: int| 0 <= q < ranked.len() implies (#[trigger] ranked[q]).word@ != all[n
        - 1].word@ by {
        let row = ranked[q];
        assert(has_same_row(all, n, row));
        let j = choose|j: int|
            n <= j < all.len() && (#[trigger] all[j]).word@ == row.word@ && all[j].count
                == row.count;
        assert(all[n - 1].word@ != all[j].word@);
    }
}

/// Puts the rows of a table in ranking order.
fn rank_rows(table: Vec<WordCount>) -> (ranked: Vec<WordCount>)
    requires
        distinct_words(table@),
    ensures
        is_ranked(ranked@),
        same_rows(ranked@, table@),
{
    let ghost all = table@;
    let mut rest = table;
    let mut ranked: Vec<WordCount> = Vec::new();
    assert(rest@.take(rest@.len() as int) =~= rest@);
    while rest.len() > 0
        invariant
            distinct_words(all),
            rest@.len() <= all.len(),
            rest@ == all.take(rest@.len() as int),
            ranked@.len() + rest@.len() == all.len(),
            is_ranked(ranked@),
            forall|i: int|
                0 <= i < ranked@.len() ==> has_same_row(all, rest@.len() as int, #[trigger] ranked@[i]),
            forall|j: int|
                rest@.len() <= j < all.len() ==> has_same_row(ranked@, 0, #[trigger] all[j]),
        decreases rest@.len(),
    {
        let ghost n = rest@.len() as int;
        let ghost old_ranked = ranked@;
        let entry = rest.pop().unwrap();
        assert(entry == all[n - 1]);
        assert(rest@ =~= all.take(n - 1));
        let mut p: usize = 0;
        while p < ranked.len() && row_before(&ranked[p], &entry)
            invariant
                p <= ranked@.len(),
                forall|q: int| 0 <= q < p ==> ranks_before(#[trigger] ranked@[q], entry),
            decreases ranked@.len() - p,
        {
            p += 1;
        }
        proof {
            lemma_taken_rows_differ(old_ranked, all, n);
            lemma_insert_keeps_ranking(old_ranked, entry, p as int);
            lemma_insert_keeps_rows(old_ranked, all, n, p as int);
        }
        ranked.insert(p, entry);
    }
    ranked
}

/// Counts and ranks the words of a classified text that take at least
/// `min_len` bytes.
///
/// The table has one row for each such word, with the number of times the
/// word occurs in the text. The rows stand in ranking order: a higher count
/// first, and among equal counts the word that a dictionary puts first.
pub fn count_words(text: &[Classified], min_len: usize) -> (ranked: Vec<WordCount>)
    ensures
        is_tally(ranked@, words(text@), min_len as nat),
        is_ranked(ranked@),
{
    let list = split_words(text);
    let table = tally_words(&list, min_len);
    let ranked = rank_rows(table);
    proof {
        lemma_ranked_tally(ranked@, table@, words(text@), min_len as nat);
    }
    ranked
}

/// The text whose words are counted: the text itself, or its lower-case form
/// where case is to be ignored.
pub open spec fn counted_text(text: Seq<char>, ignore_case: bool) -> Seq<char> {
    if ignore_case {
        lowercase(text)
    } else {
        text
    }
}

/// Counts and ranks the words of a text that take at least `min_len` bytes,
/// after putting the text in lower case if `ignore_case` is set.
pub fn word_frequencies(text: &str, ignore_case: bool, min_len: usize) -> (ranked: Vec<WordCount>)
    ensures
        is_tally(
            ranked@,
            words(classify(counted_text(text@, ignore_case))),
            min_len as nat,
        ),
        is_ranked(ranked@),
{
    let classified = if ignore_case {
        let lower = to_lowercase(text);
        classify_text(lower.as_str())
    } else {
        classify_text(text)
    };
    count_words(classified.as_slice(), min_len)
}

/// What stands above the rows of a report.
#[derive(Clone, Copy, Debug, PartialEq, Eq, Structural)]
pub enum Heading {
    /// The report shows this many rows and there are more.
    Top(usize),
    /// The report shows every row there is.
    All,
}

/// The heading for a report of at most `top` rows out of `rows`.
pub open spec fn heading_for(top: usize, rows: nat) -> Heading {
    if top < rows {
        Heading::Top(top)
    } else {
        Heading::All
    }
}

/// Cuts a table down to its first `top` rows and says which heading goes
/// above them.
pub fn top_rows(table: Vec<WordCount>, top: usize) -> (report: (Heading, Vec<WordCount>))
    ensures
        report.0 == heading_for(top, table@.len()),
        report.1@ == if top < table@.len() {
            table@.take(top as int)
        } else {
            table@
        },
{
    let mut rows = table;
    if top < rows.len() {
        rows.truncate(top);
        assert(rows@ =~= table@.take(top as int));
        (Heading::Top(top), rows)
    } else {
        (Heading::All, rows)
    }
}

} // verus!
