use vstd::prelude::*;

verus! {

#[verifier::external_type_specification]
#[verifier::external_body]
pub struct ExRegex(regex::Regex);

#[verifier::external_type_specification]
#[verifier::external_body]
pub struct ExRegexError(regex::Error);

/// Whether `pattern` is accepted by the regex crate's syntax and size limits.
pub uninterp spec fn regex_compiles(pattern: Seq<char>) -> bool;

/// Whether the regex compiled from `pattern` finds a match anywhere in `text`.
pub uninterp spec fn regex_finds(pattern: Seq<char>, text: Seq<char>) -> bool;

/// Relies on regex::Regex::new: it succeeds exactly on the patterns it accepts.
#[verifier::external_body]
fn compile_regex(pattern: &str) -> (r: Result<regex::Regex, regex::Error>)
    ensures
        r is Ok <==> regex_compiles(pattern@),
{
    regex::Regex::new(pattern)
}

/// Relies on regex::Error's Display impl for a readable reason.
#[verifier::external_body]
fn regex_error_text(e: &regex::Error) -> String {
    e.to_string()
}

/// A pattern that failed to compile, and why.
pub struct PatternError {
    pub pattern: String,
    pub reason: String,
}

/// A regex source string together with the matcher compiled from it.
pub struct PatternEntry {
    source: String,
    matcher: regex::Regex,
}

impl View for PatternEntry {
    type V = Seq<char>;

    closed spec fn view(&self) -> Seq<char> {
        self.source@
    }
}

impl PatternEntry {
    /// Compiles `source`; this is the only way an entry comes to be.
    pub fn compile(source: &str) -> (r: Result<PatternEntry, PatternError>)
        ensures
            r is Ok <==> regex_compiles(source@),
            r is Ok ==> r->Ok_0@ == source@,
            r is Err ==> r->Err_0.pattern@ == source@,
    {
        match compile_regex(source) {
            Ok(matcher) => {
                let entry = PatternEntry { source: source.to_owned(), matcher };
                Ok(entry)
            },
            Err(e) => Err(PatternError { pattern: source.to_owned(), reason: regex_error_text(&e) }),
        }
    }

    pub fn source(&self) -> (r: &str)
        ensures
            r@ == self@,
    {
        self.source.as_str()
    }

    /// Relies on regex::Regex::is_match; `matcher` was compiled from `source` by
    /// `compile`, the only constructor.
    #[verifier::external_body]
    pub(crate) fn is_match(&self, text: &str) -> (r: bool)
        ensures
            r == regex_finds(self@, text@),
    {
        self.matcher.is_match(text)
    }
}

/// Compiled matchers keyed by their source text, at most one per key.
pub struct PatternRegistry {
    entries: Vec<PatternEntry>,
}

impl View for PatternRegistry {
    type V = Set<Seq<char>>;

    closed spec fn view(&self) -> Set<Seq<char>> {
        self.keys().to_set()
    }
}

impl PatternRegistry {
    /// The keys in the order in which each was first inserted.
    pub closed spec fn keys(&self) -> Seq<Seq<char>> {
        self.entries@.map_values(|e: PatternEntry| e@)
    }

    pub closed spec fn wf(&self) -> bool {
        self.keys().no_duplicates()
    }

    pub fn new() -> (r: PatternRegistry)
        ensures
            r.wf(),
            r@ == Set::<Seq<char>>::empty(),
    {
        let r = PatternRegistry { entries: Vec::new() };
        proof {
            assert(r.keys() =~= Seq::<Seq<char>>::empty());
        }
        r
    }

    pub fn len(&self) -> (r: usize)
        requires
            self.wf(),
        ensures
            r == self@.len(),
    {
        proof {
            self.keys().unique_seq_to_set();
        }
        self.entries.len()
    }

    fn find(&self, key: &str) -> (r: Option<usize>)
        ensures
            r is Some ==> r->0 < self.keys().len() && self.keys()[r->0 as int] == key@,
            r is None ==> !self.keys().contains(key@),
    {
        let k = key.to_owned();
        let mut i: usize = 0;
        while i < self.entries.len()
            invariant
                k@ == key@,
                i <= self.entries@.len(),
                forall|j: int| 0 <= j < i ==> self.keys()[j] != key@,
            decreases self.entries@.len() - i,
        {
            if self.entries[i].source == k {
                return Some(i);
            }
            i = i + 1;
        }
        None
    }

    /// Whether a matcher is kept under `key`.
    pub fn contains(&self, key: &str) -> (r: bool)
        ensures
            r == self@.contains(key@),
    {
        let r = self.find(key).is_some();
        proof {
            if r {
                let i = choose|i: int| 0 <= i < self.keys().len() && self.keys()[i] == key@;
                assert(self.keys().contains(key@));
            }
        }
        r
    }

    /// The matcher kept under `key`, if any.
    pub fn get(&self, key: &str) -> (r: Option<&PatternEntry>)
        ensures
            r is Some <==> self@.contains(key@),
            r is Some ==> r->0@ == key@,
    {
        match self.find(key) {
            Some(i) => {
                proof {
                    assert(self.keys().contains(key@));
                }
                Some(&self.entries[i])
            },
            None => None,
        }
    }

    /// Keeps `entry` under its source text, replacing an entry with the same key.
    pub fn insert(&mut self, entry: PatternEntry)
        requires
            old(self).wf(),
        ensures
            final(self).wf(),
            final(self)@ == old(self)@.insert(entry@),
    {
        let ghost e = entry@;
        match self.find(entry.source()) {
            Some(i) => {
                self.entries.set(i, entry);
                proof {
                    assert(self.keys() =~= old(self).keys().update(i as int, e));
                    assert(self.keys() =~= old(self).keys());
                    assert(self@ =~= old(self)@.insert(e));
                }
            },
            None => {
                self.entries.push(entry);
                proof {
                    assert(self.keys() =~= old(self).keys().push(e));
                    old(self).keys().lemma_push_to_set_commute(e);
                    assert(self@ =~= old(self)@.insert(e));
                }
            },
        }
    }
}

} // verus!
