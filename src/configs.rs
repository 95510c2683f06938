use crate::patterns::{PatternEntry, PatternError, PatternRegistry, regex_compiles};
use vstd::prelude::*;
use vstd::string::StringSliceAdditionalSpecFns;

verus! {

/// The rows that the csv crate reads from `text`, a failed row as `None`.
pub uninterp spec fn csv_rows(text: Seq<char>) -> Seq<Option<Seq<Seq<char>>>>;

pub open spec fn strings_view(v: Seq<String>) -> Seq<Seq<char>> {
    v.map_values(|s: String| s@)
}

pub open spec fn rows_view(r: Seq<Vec<String>>) -> Seq<Seq<Seq<char>>> {
    r.map_values(|v: Vec<String>| strings_view(v@))
}

pub open spec fn opt_rows_view(r: Seq<Option<Vec<String>>>) -> Seq<Option<Seq<Seq<char>>>> {
    r.map_values(
        |o: Option<Vec<String>>|
            match o {
                Some(v) => Some(strings_view(v@)),
                None => None,
            },
    )
}

/// Relies on csv::ReaderBuilder without a header row, and on StringRecordsIter:
/// one item per row, its fields as strings, a row it cannot read as `None`.
#[verifier::external_body]
fn csv_records(text: &str) -> (r: Vec<Option<Vec<String>>>)
    ensures
        opt_rows_view(r@) == csv_rows(text@),
{
    let mut rdr = csv::ReaderBuilder::new().has_headers(false).from_reader(text.as_bytes());
    rdr.records().map(|r| r.ok().map(|rec| rec.iter().map(|f| f.to_string()).collect())).collect()
}

/// The rows that were read, malformed rows left out.
pub open spec fn good_rows(rows: Seq<Option<Seq<Seq<char>>>>) -> Seq<Seq<Seq<char>>>
    decreases rows.len(),
{
    if rows.len() == 0 {
        Seq::empty()
    } else {
        let prev = good_rows(rows.drop_last());
        match rows.last() {
            Some(f) => prev.push(f),
            None => prev,
        }
    }
}

/// Field `col` of every row that has one, in order.
pub open spec fn column(rows: Seq<Seq<Seq<char>>>, col: int) -> Seq<Seq<char>>
    decreases rows.len(),
{
    if rows.len() == 0 {
        Seq::empty()
    } else {
        let prev = column(rows.drop_last(), col);
        if col < rows.last().len() {
            prev.push(rows.last()[col])
        } else {
            prev
        }
    }
}

/// The fixed indicator patterns that every registry starts from.
pub open spec fn builtin_patterns() -> Seq<Seq<char>> {
    seq![
        "\\-enc.*[A-Za-z0-9/+=]{100}"@,
        "^.* \\-Enc(odedCommand)? "@,
        ":FromBase64String\\("@,
        "^.*:FromBase64String\\('*"@,
        "'.*$"@,
        "Compression.GzipStream.*Decompress"@,
        "[a-z0-9/\u{a5};:|.]"@,
        "[01]"@,
    ]
}

/// Every pattern that goes into the registry, in insertion order.
pub open spec fn all_sources(
    whitelist: Seq<Seq<Seq<char>>>,
    regex: Seq<Seq<Seq<char>>>,
) -> Seq<Seq<char>> {
    builtin_patterns() + column(whitelist, 0) + column(regex, 1)
}

/// `p` is the first pattern of `s` that does not compile.
pub open spec fn first_bad_pattern(s: Seq<Seq<char>>, p: Seq<char>) -> bool {
    exists|i: int|
        0 <= i < s.len() && s[i] == p && !regex_compiles(s[i]) && forall|j: int|
            0 <= j < i ==> regex_compiles(#[trigger] s[j])
}

pub open spec fn is_digit(b: u8) -> bool {
    48 <= b <= 57
}

pub open spec fn all_digits(s: Seq<u8>) -> bool {
    forall|i: int| 0 <= i < s.len() ==> is_digit(#[trigger] s[i])
}

/// The value of a string of decimal digits.
pub open spec fn decimal_value(s: Seq<u8>) -> int
    decreases s.len(),
{
    if s.len() == 0 {
        0
    } else {
        decimal_value(s.drop_last()) * 10 + (s.last() - 48)
    }
}

pub open spec fn opt_bytes(arg: Option<&str>) -> Option<Seq<u8>> {
    match arg {
        None => None,
        Some(s) => Some(s.spec_bytes()),
    }
}

/// The worker count that a `--threadnumber` value stands for, 1 when unset.
pub open spec fn thread_num_of(arg: Option<Seq<u8>>) -> Option<int> {
    match arg {
        None => Some(1),
        Some(s) => if s.len() > 0 && all_digits(s) && 1 <= decimal_value(s) <= i32::MAX {
            Some(decimal_value(s))
        } else {
            None
        },
    }
}

proof fn lemma_value_nonneg(s: Seq<u8>)
    requires
        all_digits(s),
    ensures
        decimal_value(s) >= 0,
    decreases s.len(),
{
    if s.len() > 0 {
        lemma_value_nonneg(s.drop_last());
    }
}

proof fn lemma_prefix_le(s: Seq<u8>, i: int)
    requires
        all_digits(s),
        0 <= i <= s.len(),
    ensures
        decimal_value(s.take(i)) <= decimal_value(s),
    decreases s.len() - i,
{
    if i < s.len() {
        lemma_prefix_le(s, i + 1);
        assert(s.take(i + 1).drop_last() =~= s.take(i));
        lemma_value_nonneg(s.take(i));
    } else {
        assert(s.take(i) =~= s);
    }
}

/// Errors of building the configuration.
pub enum ConfigError {
    /// The worker count is not a whole number from 1 to `i32::MAX`.
    InvalidThreadNumber,
    /// A pattern did not compile.
    Pattern(PatternError),
}

/// Reads a `--threadnumber` value: decimal digits, at least 1; 1 when unset.
pub fn get_thread_num(arg: Option<&str>) -> (r: Result<i32, ConfigError>)
    ensures
        thread_num_of(opt_bytes(arg)) matches Some(n) ==> r is Ok && r->Ok_0 == n,
        thread_num_of(opt_bytes(arg)) is None ==> r is Err && r->Err_0 is InvalidThreadNumber,
        r is Err ==> r->Err_0 is InvalidThreadNumber,
{
    let s = match arg {
        None => {
            return Ok(1);
        },
        Some(s) => s,
    };
    let b = s.as_bytes();
    if b.len() == 0 {
        return Err(ConfigError::InvalidThreadNumber);
    }
    let mut v: u64 = 0;
    let mut i: usize = 0;
    while i < b.len()
        invariant
            arg == Some(s),
            b@ == s.spec_bytes(),
            i <= b@.len(),
            all_digits(b@.take(i as int)),
            v == decimal_value(b@.take(i as int)),
            v <= i32::MAX,
        decreases b@.len() - i,
    {
        let c = b[i];
        if c < 48 || c > 57 {
            proof {
                assert(!is_digit(b@[i as int]));
                assert(!all_digits(b@));
                assert(opt_bytes(arg) == Some(b@));
            }
            return Err(ConfigError::InvalidThreadNumber);
        }
        proof {
            assert(b@.take(i + 1).drop_last() =~= b@.take(i as int));
            assert(b@.take(i + 1).last() == c);
        }
        v = v * 10 + (c - 48) as u64;
        if v > 2147483647 {
            proof {
                if all_digits(b@) {
                    lemma_prefix_le(b@, i + 1);
                    assert(decimal_value(b@) > i32::MAX);
                }
                assert(opt_bytes(arg) == Some(b@));
            }
            return Err(ConfigError::InvalidThreadNumber);
        }
        i = i + 1;
    }
    proof {
        assert(b@.take(i as int) =~= b@);
    }
    if v == 0 {
        return Err(ConfigError::InvalidThreadNumber);
    }
    Ok(v as i32)
}

fn clone_strings(v: &Vec<String>) -> (r: Vec<String>)
    ensures
        strings_view(r@) == strings_view(v@),
{
    let mut r: Vec<String> = Vec::new();
    let mut i: usize = 0;
    while i < v.len()
        invariant
            i <= v@.len(),
            strings_view(r@) == strings_view(v@.take(i as int)),
        decreases v@.len() - i,
    {
        let ghost r0 = r@;
        r.push(v[i].as_str().to_owned());
        proof {
            assert(v@.take(i + 1) =~= v@.take(i as int).push(v@[i as int]));
            assert(strings_view(r@) =~= strings_view(r0).push(v@[i as int]@));
            assert(strings_view(v@.take(i + 1)) =~= strings_view(v@.take(i as int)).push(
                v@[i as int]@,
            ));
            assert(strings_view(r@) =~= strings_view(v@.take(i + 1)));
        }
        i = i + 1;
    }
    proof {
        assert(v@.take(i as int) =~= v@);
    }
    r
}

/// The rows of a CSV text with no header row; a row that cannot be read is skipped.
pub fn read_csv(contents: &str) -> (r: Vec<Vec<String>>)
    ensures
        rows_view(r@) == good_rows(csv_rows(contents@)),
{
    let recs = csv_records(contents);
    let ghost rows = csv_rows(contents@);
    let mut ret: Vec<Vec<String>> = Vec::new();
    let mut i: usize = 0;
    while i < recs.len()
        invariant
            i <= recs@.len(),
            opt_rows_view(recs@) == rows,
            rows_view(ret@) == good_rows(rows.take(i as int)),
        decreases recs@.len() - i,
    {
        proof {
            assert(rows.take(i + 1).drop_last() =~= rows.take(i as int));
        }
        match &recs[i] {
            Some(fields) => {
                ret.push(clone_strings(fields));
                proof {
                    assert(rows_view(ret@) =~= good_rows(rows.take(i + 1)));
                }
            },
            None => {},
        }
        i = i + 1;
    }
    proof {
        assert(rows.take(i as int) =~= rows);
    }
    ret
}

/// Field `col` of every row that has one, in order.
pub fn pattern_column(rows: &Vec<Vec<String>>, col: usize) -> (r: Vec<String>)
    ensures
        strings_view(r@) == column(rows_view(rows@), col as int),
{
    let ghost rv = rows_view(rows@);
    let mut ret: Vec<String> = Vec::new();
    let mut i: usize = 0;
    while i < rows.len()
        invariant
            i <= rows@.len(),
            rv == rows_view(rows@),
            strings_view(ret@) == column(rv.take(i as int), col as int),
        decreases rows@.len() - i,
    {
        proof {
            assert(rv.take(i + 1).drop_last() =~= rv.take(i as int));
            assert(rv.take(i + 1).last() == strings_view(rows@[i as int]@));
        }
        if col < rows[i].len() {
            ret.push(rows[i][col].as_str().to_owned());
            proof {
                assert(strings_view(ret@) =~= column(rv.take(i + 1), col as int));
            }
        }
        i = i + 1;
    }
    proof {
        assert(rv.take(i as int) =~= rv);
    }
    ret
}

/// The fixed indicator patterns, in insertion order.
pub fn builtin_pattern_list() -> (r: Vec<String>)
    ensures
        strings_view(r@) == builtin_patterns(),
{
    let mut r: Vec<String> = Vec::new();
    r.push("\\-enc.*[A-Za-z0-9/+=]{100}".to_owned());
    r.push("^.* \\-Enc(odedCommand)? ".to_owned());
    r.push(":FromBase64String\\(".to_owned());
    r.push("^.*:FromBase64String\\('*".to_owned());
    r.push("'.*$".to_owned());
    r.push("Compression.GzipStream.*Decompress".to_owned());
    r.push("[a-z0-9/\u{a5};:|.]".to_owned());
    r.push("[01]".to_owned());
    proof {
        assert(strings_view(r@) =~= builtin_patterns());
    }
    r
}

/// Compiles `sources` in order into one registry, later keys replacing earlier
/// ones; stops at the first pattern that does not compile.
pub fn compile_all(sources: &Vec<String>) -> (r: Result<PatternRegistry, PatternError>)
    ensures
        r is Ok <==> forall|i: int|
            0 <= i < sources@.len() ==> regex_compiles(#[trigger] strings_view(sources@)[i]),
        r is Ok ==> r->Ok_0.wf() && r->Ok_0@ == strings_view(sources@).to_set(),
        r is Err ==> first_bad_pattern(strings_view(sources@), r->Err_0.pattern@),
{
    let ghost sv = strings_view(sources@);
    let mut reg = PatternRegistry::new();
    let mut i: usize = 0;
    proof {
        assert(sv.take(0).to_set() =~= Set::<Seq<char>>::empty());
    }
    while i < sources.len()
        invariant
            i <= sources@.len(),
            sv == strings_view(sources@),
            reg.wf(),
            reg@ == sv.take(i as int).to_set(),
            forall|j: int| 0 <= j < i ==> regex_compiles(#[trigger] sv[j]),
        decreases sources@.len() - i,
    {
        match PatternEntry::compile(sources[i].as_str()) {
            Ok(entry) => {
                reg.insert(entry);
                proof {
                    assert(sv.take(i + 1) =~= sv.take(i as int).push(sv[i as int]));
                    sv.take(i as int).lemma_push_to_set_commute(sv[i as int]);
                }
            },
            Err(e) => {
                proof {
                    assert(sv[i as int] == sources@[i as int]@);
                    assert(sv[i as int] == e.pattern@ && !regex_compiles(sv[i as int]));
                    assert(first_bad_pattern(sv, e.pattern@));
                }
                return Err(e);
            },
        }
        i = i + 1;
    }
    proof {
        assert(sv.take(i as int) =~= sv);
    }
    Ok(reg)
}

/// Builds the registry from the built-in patterns, then the whitelist's first
/// column, then the detection file's second column.
pub fn get_regex(whitelist: &Vec<Vec<String>>, regex: &Vec<Vec<String>>) -> (r: Result<
    PatternRegistry,
    PatternError,
>)
    ensures
        ({
            let s = all_sources(rows_view(whitelist@), rows_view(regex@));
            &&& r is Ok <==> forall|i: int| 0 <= i < s.len() ==> regex_compiles(#[trigger] s[i])
            &&& r is Ok ==> r->Ok_0.wf() && r->Ok_0@ == s.to_set()
            &&& r is Err ==> first_bad_pattern(s, r->Err_0.pattern@)
        }),
{
    let mut sources = builtin_pattern_list();
    let mut w = pattern_column(whitelist, 0);
    let mut d = pattern_column(regex, 1);
    let ghost b0 = sources@;
    let ghost w0 = w@;
    let ghost d0 = d@;
    sources.append(&mut w);
    sources.append(&mut d);
    proof {
        assert(sources@ =~= b0 + w0 + d0);
        assert(strings_view(sources@) =~= all_sources(rows_view(whitelist@), rows_view(regex@)));
    }
    compile_all(&sources)
}

/// The configuration that the whole run reads: the pattern files' rows, the
/// worker count, and the registry compiled from all patterns.
pub struct SingletonReader {
    pub regex: Vec<Vec<String>>,
    pub whitelist: Vec<Vec<String>>,
    pub thread_num: i32,
    pub cached_regex: PatternRegistry,
}

impl SingletonReader {
    /// Builds the snapshot from the `--threadnumber` value and the texts of the
    /// detection-pattern and whitelist files (empty when a file is missing).
    pub fn build(thread_arg: Option<&str>, regex_csv: &str, whitelist_csv: &str) -> (r: Result<
        SingletonReader,
        ConfigError,
    >)
        ensures
            ({
                let re = good_rows(csv_rows(regex_csv@));
                let wl = good_rows(csv_rows(whitelist_csv@));
                let s = all_sources(wl, re);
                let n = thread_num_of(opt_bytes(thread_arg));
                &&& n is None ==> r is Err && r->Err_0 is InvalidThreadNumber
                &&& n is Some ==> (r is Ok <==> forall|i: int|
                    0 <= i < s.len() ==> regex_compiles(#[trigger] s[i]))
                &&& n is Some && r is Err ==> r->Err_0 is Pattern && first_bad_pattern(
                    s,
                    r->Err_0->Pattern_0.pattern@,
                )
                &&& r is Ok ==> {
                    let c = r->Ok_0;
                    &&& c.thread_num == n->0
                    &&& rows_view(c.regex@) == re
                    &&& rows_view(c.whitelist@) == wl
                    &&& c.cached_regex.wf()
                    &&& c.cached_regex@ == s.to_set()
                }
            }),
    {
        let thread_num = match get_thread_num(thread_arg) {
            Ok(n) => n,
            Err(e) => {
                return Err(e);
            },
        };
        let regex = read_csv(regex_csv);
        let whitelist = read_csv(whitelist_csv);
        match get_regex(&whitelist, &regex) {
            Ok(cached_regex) => Ok(SingletonReader { regex, whitelist, thread_num, cached_regex }),
            Err(e) => Err(ConfigError::Pattern(e)),
        }
    }
}

} // verus!
