use vstd::prelude::*;

verus! {

/// `q` occurs in `t` as a run of consecutive characters.
pub open spec fn has_substring(t: Seq<char>, q: Seq<char>) -> bool {
    exists|i: int| 0 <= i && i + q.len() <= t.len() && #[trigger] t.subrange(i, i + q.len()) == q
}

/// The lines of a text as `str::lines` splits it.
pub uninterp spec fn lines_of(s: Seq<char>) -> Seq<Seq<char>>;

/// The words of a text as `str::split_whitespace` splits it.
pub uninterp spec fn words_of(s: Seq<char>) -> Seq<Seq<char>>;

/// A text in lower case as `str::to_lowercase` gives it.
pub uninterp spec fn lower_of(s: Seq<char>) -> Seq<char>;

pub open spec fn texts(v: Seq<String>) -> Seq<Seq<char>> {
    v.map_values(|s: String| s@)
}

/// The `lines[i]` whose `keys[i]` holds `needle`, in order.
pub open spec fn kept_lines(lines: Seq<Seq<char>>, keys: Seq<Seq<char>>, needle: Seq<char>, n: int) -> Seq<Seq<char>>
    decreases n,
{
    if n <= 0 {
        seq![]
    } else {
        let rest = kept_lines(lines, keys, needle, n - 1);
        if has_substring(keys[n - 1], needle) {
            rest.push(lines[n - 1])
        } else {
            rest
        }
    }
}

/// Index of the first word that holds `query`, if any.
pub open spec fn first_holding(words: Seq<Seq<char>>, query: Seq<char>, i: int) -> Option<int>
    decreases words.len() - i,
{
    if i < 0 || i >= words.len() {
        None
    } else if has_substring(words[i], query) {
        Some(i)
    } else {
        first_holding(words, query, i + 1)
    }
}

/// Relies on str::contains with a `&str` pattern: true when `query` occurs in `text`.
#[verifier::external_body]
fn contains_text(text: &str, query: &str) -> (r: bool)
    ensures
        r == has_substring(text@, query@),
{
    text.contains(query)
}

/// Relies on str::lines: the text split at line endings.
#[verifier::external_body]
pub(crate) fn split_lines(s: &str) -> (r: Vec<String>)
    ensures
        texts(r@) == lines_of(s@),
{
    s.lines().map(|l| l.to_string()).collect()
}

/// Relies on str::split_whitespace: the text split into words.
#[verifier::external_body]
fn split_words(s: &str) -> (r: Vec<String>)
    ensures
        texts(r@) == words_of(s@),
{
    s.split_whitespace().map(|w| w.to_string()).collect()
}

/// Relies on str::to_lowercase: the result depends on the characters alone.
#[verifier::external_body]
fn lowercase(s: &str) -> (r: String)
    ensures
        r@ == lower_of(s@),
{
    s.to_lowercase()
}

/// Keeps each `lines[i]` whose `keys[i]` holds `needle`, in their order.
pub fn filter_by_keys(lines: &Vec<String>, keys: &Vec<String>, needle: &str) -> (r: Vec<String>)
    requires
        lines@.len() == keys@.len(),
    ensures
        texts(r@) == kept_lines(texts(lines@), texts(keys@), needle@, lines@.len() as int),
{
    let mut r: Vec<String> = Vec::new();
    let mut i: usize = 0;
    while i < lines.len()
        invariant
            0 <= i <= lines@.len(),
            lines@.len() == keys@.len(),
            texts(r@) == kept_lines(texts(lines@), texts(keys@), needle@, i as int),
        decreases lines.len() - i,
    {
        let ghost before = texts(r@);
        assert(texts(keys@)[i as int] == keys@[i as int]@);
        assert(texts(lines@)[i as int] == lines@[i as int]@);
        if contains_text(keys[i].as_str(), needle) {
            r.push(lines[i].clone());
            assert(texts(r@) =~= before.push(lines@[i as int]@));
        }
        i = i + 1;
    }
    r
}

/// The lines of `contents` that hold `query`, in order.
pub fn normal_search(query: &str, contents: &str) -> (r: Vec<String>)
    ensures
        texts(r@) == kept_lines(lines_of(contents@), lines_of(contents@), query@, lines_of(contents@).len() as int),
{
    let lines = split_lines(contents);
    filter_by_keys(&lines, &lines, query)
}

/// The lines of `contents` that hold `query` when both are taken in lower case.
pub fn ignore_case_search(query: &str, contents: &str) -> (r: Vec<String>)
    ensures
        texts(r@) == kept_lines(
            lines_of(contents@),
            lines_of(contents@).map_values(|l: Seq<char>| lower_of(l)),
            lower_of(query@),
            lines_of(contents@).len() as int,
        ),
{
    let needle = lowercase(query);
    let lines = split_lines(contents);
    let mut keys: Vec<String> = Vec::new();
    let mut i: usize = 0;
    while i < lines.len()
        invariant
            0 <= i <= lines@.len(),
            texts(lines@) == lines_of(contents@),
            texts(keys@) == texts(lines@).subrange(0, i as int).map_values(|l: Seq<char>| lower_of(l)),
        decreases lines.len() - i,
    {
        let ghost before = texts(keys@);
        assert(texts(lines@)[i as int] == lines@[i as int]@);
        let k = lowercase(lines[i].as_str());
        let ghost folded = k@;
        keys.push(k);
        assert(texts(keys@) =~= before.push(folded));
        assert(texts(keys@) =~= texts(lines@).subrange(0, i + 1).map_values(|l: Seq<char>| lower_of(l)));
        i = i + 1;
    }
    assert(texts(lines@).subrange(0, i as int) =~= texts(lines@));
    filter_by_keys(&lines, &keys, needle.as_str())
}

/// Index of the first word that holds `query`, or 0 when none does.
pub fn first_match(words: &Vec<String>, query: &str) -> (r: usize)
    ensures
        r == match first_holding(texts(words@), query@, 0) {
            Some(i) => i,
            None => 0,
        },
{
    let mut i: usize = 0;
    while i < words.len()
        invariant
            0 <= i <= words@.len(),
            first_holding(texts(words@), query@, 0) == first_holding(texts(words@), query@, i as int),
        decreases words.len() - i,
    {
        assert(texts(words@)[i as int] == words@[i as int]@);
        if contains_text(words[i].as_str(), query) {
            return i;
        }
        i = i + 1;
    }
    0
}

/// Position of the first word of `line` that holds `query`, or 0 when none does.
pub fn find_word(query: &str, line: &str) -> (r: usize)
    ensures
        r == match first_holding(words_of(line@), query@, 0) {
            Some(i) => i,
            None => 0,
        },
{
    let words = split_words(line);
    first_match(&words, query)
}

} // verus!
