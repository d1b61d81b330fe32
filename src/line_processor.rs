use vstd::prelude::*;

verus! {

/// Characters that are neither word characters nor white space.
pub const SPECIAL_CHARS: &'static str = "[^\\w\\s]";

/// What deunicode makes of a text: its transliteration to ASCII.
pub uninterp spec fn ascii_folded(s: Seq<char>) -> Seq<char>;

/// Relies on deunicode::deunicode: the transliteration depends on the text alone.
#[verifier::external_body]
fn fold_to_ascii(s: &str) -> (r: String)
    ensures
        r@ == ascii_folded(s@),
{
    deunicode::deunicode(s)
}

/// The pattern `SPECIAL_CHARS`, compiled once and kept in a `regex::Regex`.
#[verifier::external_body]
pub struct SpecialChars {
    re: regex::Regex,
}

/// What removing every match of `SPECIAL_CHARS` makes of a text.
pub uninterp spec fn specials_removed(s: Seq<char>) -> Seq<char>;

/// Relies on regex::Regex::new: compiles `SPECIAL_CHARS`; `None` if the pattern
/// were refused.
#[verifier::external_body]
fn compile_special_chars() -> (r: Option<SpecialChars>) {
    regex::Regex::new(SPECIAL_CHARS).ok().map(|re| SpecialChars { re })
}

/// Relies on regex::Regex::replace_all with an empty replacement: `s` without the
/// matches of `SPECIAL_CHARS`, which depends on `s` alone.
#[verifier::external_body]
fn remove_specials(p: &SpecialChars, s: &str) -> (r: String)
    ensures
        r@ == specials_removed(s@),
{
    p.re.replace_all(s, "").into_owned()
}

/// `s` with each occurrence of `from` replaced by `to`, scanning from the left
/// and never overlapping a replaced occurrence.
pub open spec fn replaced(s: Seq<char>, from: Seq<char>, to: Seq<char>) -> Seq<char>
    decreases s.len(),
{
    if from.len() == 0 || s.len() < from.len() {
        s
    } else if s.subrange(0, from.len() as int) == from {
        to + replaced(s.subrange(from.len() as int, s.len() as int), from, to)
    } else {
        seq![s[0]] + replaced(s.drop_first(), from, to)
    }
}

/// Relies on str::replace: every match of `from`, left to right and without
/// overlap, is replaced by `to`.
#[verifier::external_body]
fn replace_text(s: &str, from: &str, to: &str) -> (r: String)
    requires
        from@.len() > 0,
    ensures
        r@ == replaced(s@, from@, to@),
{
    s.replace(from, to)
}

/// The ordinal fix: a stand-alone "th" between spaces reads "nth".
pub open spec fn th_spaced() -> Seq<char> {
    seq![' ', 't', 'h', ' ']
}

pub open spec fn nth_spaced() -> Seq<char> {
    seq![' ', 'n', 't', 'h', ' ']
}

/// `c` folded to lower case when it is an ASCII capital.
pub open spec fn lower_code(c: char) -> u32 {
    if 'A' <= c && c <= 'Z' {
        (c as u32 + 32) as u32
    } else {
        c as u32
    }
}

/// Relies on str::to_ascii_lowercase: ASCII capitals become small letters, every
/// other character stays.
#[verifier::external_body]
fn lowercase_ascii(s: &str) -> (r: String)
    ensures
        r@.len() == s@.len(),
        forall|i: int| 0 <= i < s@.len() ==> #[trigger] (r@[i] as u32) == lower_code(s@[i]),
{
    s.to_ascii_lowercase()
}

/// ASCII white space as `u8::is_ascii_whitespace` has it.
pub open spec fn is_ascii_space(c: char) -> bool {
    c == ' ' || c == '\t' || c == '\n' || c == '\x0C' || c == '\r'
}

/// The words of `s`: the maximal runs of characters that are not ASCII white
/// space, in order.
pub open spec fn ascii_words(s: Seq<char>) -> Seq<Seq<char>>
    decreases s.len(),
{
    if s.len() == 0 {
        Seq::empty()
    } else {
        let w = ascii_words(s.drop_last());
        let c = s.last();
        if is_ascii_space(c) {
            w
        } else if s.len() >= 2 && !is_ascii_space(s[s.len() - 2]) && w.len() > 0 {
            w.update(w.len() - 1, w.last().push(c))
        } else {
            w.push(seq![c])
        }
    }
}

pub open spec fn texts(v: Seq<String>) -> Seq<Seq<char>> {
    v.map_values(|w: String| w@)
}

/// Relies on str::split_ascii_whitespace: the words of `s`, in order.
#[verifier::external_body]
fn split_words(s: &str) -> (r: Vec<String>)
    ensures
        texts(r@) == ascii_words(s@),
{
    s.split_ascii_whitespace().map(|w| w.to_string()).collect()
}

/// A set of stop words, kept in a `hashbrown::HashSet`.
#[verifier::external_body]
pub struct StopWords {
    set: hashbrown::HashSet<String>,
}

/// The words a `StopWords` holds.
pub uninterp spec fn stop_set(w: StopWords) -> Set<Seq<char>>;

/// Relies on hashbrown::HashSet::new: a new set is empty.
#[verifier::external_body]
fn stop_words_new() -> (r: StopWords)
    ensures
        stop_set(r).len() == 0,
        stop_set(r).finite(),
{
    StopWords { set: hashbrown::HashSet::new() }
}

/// Relies on hashbrown::HashSet::insert: afterwards the set also holds `w`.
#[verifier::external_body]
fn stop_words_insert(s: &mut StopWords, w: String)
    ensures
        stop_set(*final(s)) == stop_set(*old(s)).insert(w@),
{
    s.set.insert(w);
}

/// Relies on hashbrown::HashSet::contains: whether an equal word is held.
/// `String` compares and hashes by its characters.
#[verifier::external_body]
fn stop_words_contains(s: &StopWords, w: &str) -> (r: bool)
    ensures
        r == stop_set(*s).contains(w@),
{
    s.set.contains(w)
}

/// The words of `ws` that are not stop words, in order.
pub open spec fn keep_words(ws: Seq<Seq<char>>, stop: Set<Seq<char>>) -> Seq<Seq<char>>
    decreases ws.len(),
{
    if ws.len() == 0 {
        Seq::empty()
    } else {
        let p = keep_words(ws.drop_last(), stop);
        if stop.contains(ws.last()) {
            p
        } else {
            p.push(ws.last())
        }
    }
}

/// The lower-case ASCII form of a text.
pub open spec fn is_lowered(t: Seq<char>, s: Seq<char>) -> bool {
    t.len() == s.len() && forall|i: int| 0 <= i < s.len() ==> #[trigger] (t[i] as u32) == lower_code(s[i])
}

/// The stop words of an already cleaned list: each of its words.
pub fn stop_words_from(cleaned: &str) -> (r: StopWords)
    ensures
        forall|w: Seq<char>| #[trigger] stop_set(r).contains(w) <==> ascii_words(cleaned@).contains(w),
{
    let words = split_words(cleaned);
    let mut set = stop_words_new();
    let mut i: usize = 0;
    proof {
        assert(stop_set(set) =~= Set::<Seq<char>>::empty()) by {
            if exists|w: Seq<char>| stop_set(set).contains(w) {
                let w = choose|w: Seq<char>| stop_set(set).contains(w);
                vstd::set_lib::lemma_set_empty_equivalency_len(stop_set(set));
            }
        }
    }
    let ghost t = texts(words@);
    while i < words.len()
        invariant
            i <= words@.len(),
            t == texts(words@),
            t == ascii_words(cleaned@),
            forall|x: Seq<char>| #[trigger]
                stop_set(set).contains(x) <==> exists|k: int| 0 <= k < i && #[trigger] t[k] == x,
        decreases words@.len() - i,
    {
        let w = words[i].clone();
        let ghost before = stop_set(set);
        stop_words_insert(&mut set, w);
        proof {
            assert(t[i as int] == words@[i as int]@);
            assert forall|x: Seq<char>| #[trigger] stop_set(set).contains(x) <==> exists|k: int|
                0 <= k < i + 1 && #[trigger] t[k] == x by {
                if x == t[i as int] {
                    assert(t[i as int] == x);
                }
            }
        }
        i = i + 1;
    }
    proof {
        assert forall|x: Seq<char>| #[trigger] stop_set(set).contains(x) <==> t.contains(x) by {
            if t.contains(x) {
                let k = choose|k: int| 0 <= k < t.len() && t[k] == x;
                assert(t[k] == x);
            }
        }
    }
    set
}

/// The words of `words` that are not in `stop`, in order.
pub fn drop_stop_words(words: Vec<String>, stop: &StopWords) -> (r: Vec<String>)
    ensures
        texts(r@) == keep_words(texts(words@), stop_set(*stop)),
{
    let ghost t = texts(words@);
    let mut out: Vec<String> = Vec::new();
    let mut i: usize = 0;
    while i < words.len()
        invariant
            i <= words@.len(),
            t == texts(words@),
            texts(out@) == keep_words(t.subrange(0, i as int), stop_set(*stop)),
        decreases words@.len() - i,
    {
        assert(t.subrange(0, i + 1).drop_last() =~= t.subrange(0, i as int));
        assert(t[i as int] == words@[i as int]@);
        if !stop_words_contains(stop, words[i].as_str()) {
            let ghost prev = out@;
            out.push(words[i].clone());
            assert(texts(out@) =~= texts(prev).push(words@[i as int]@));
        }
        i = i + 1;
    }
    assert(t.subrange(0, i as int) =~= t);
    out
}

/// The tokens of a text whose special characters are gone: lower-cased, with
/// " th " read as " nth ", split at ASCII white space, stop words dropped.
pub fn tokens_of(text: &str, stop: &StopWords) -> (r: Vec<String>)
    ensures
        exists|low: Seq<char>|
            is_lowered(low, text@) && #[trigger] texts(r@) == keep_words(
                ascii_words(replaced(low, th_spaced(), nth_spaced())),
                stop_set(*stop),
            ),
{
    let low = lowercase_ascii(text);
    proof {
        reveal_strlit(" th ");
        reveal_strlit(" nth ");
        assert(" th "@ =~= th_spaced());
        assert(" nth "@ =~= nth_spaced());
    }
    let fixed = replace_text(low.as_str(), " th ", " nth ");
    let words = split_words(fixed.as_str());
    let r = drop_stop_words(words, stop);
    assert(is_lowered(low@, text@));
    r
}

/// Turns raw lines into the tokens the index expects: transliterated to ASCII,
/// stripped of characters that are neither word characters nor white space,
/// lower-cased, with " th " read as " nth ", split into words, stop words dropped.
pub struct LineProcessor {
    special_chars: SpecialChars,
    stop_words: StopWords,
}

impl LineProcessor {
    pub closed spec fn stop(&self) -> Set<Seq<char>> {
        stop_set(self.stop_words)
    }

    /// A processor whose stop words are the words of `stop_words` once its
    /// special characters are removed. `None` only if the pattern of special
    /// characters is refused.
    pub fn new(stop_words: String) -> (r: Option<LineProcessor>)
        ensures
            r matches Some(p) ==> forall|w: Seq<char>| #[trigger]
                p.stop().contains(w) <==> ascii_words(specials_removed(stop_words@)).contains(w),
    {
        let special_chars = match compile_special_chars() {
            Some(p) => p,
            None => {
                return None;
            },
        };
        let cleaned = remove_specials(&special_chars, stop_words.as_str());
        let stop = stop_words_from(cleaned.as_str());
        Some(LineProcessor { special_chars, stop_words: stop })
    }

    /// The tokens of one line: its ASCII transliteration without special
    /// characters, lower-cased, with " th " read as " nth ", split at ASCII white
    /// space, without the stop words.
    pub fn process(&self, line: &str) -> (r: Vec<String>)
        ensures
            exists|low: Seq<char>|
                is_lowered(low, specials_removed(ascii_folded(line@))) && #[trigger] texts(r@)
                    == keep_words(ascii_words(replaced(low, th_spaced(), nth_spaced())), self.stop()),
    {
        let folded = fold_to_ascii(line);
        let cleaned = remove_specials(&self.special_chars, folded.as_str());
        tokens_of(cleaned.as_str(), &self.stop_words)
    }
}

} // verus!
