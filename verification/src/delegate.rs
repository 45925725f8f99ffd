//! Interpreting the output of an external recognition process.
//!
//! Delegating capture and recognition to an external process is out of this
//! core's scope, but deciding what that process said is not: the scanning and
//! parsing of its text output is verified here.  The caller (which spawns the
//! process) hands in the captured output and takes back a structured result.
//! Fractional values travel as fixed-point integers scaled by
//! [`crate::math::SCALE`].

use vstd::prelude::*;
use vstd::string::StrSliceExecFns;
use vstd::string::StringExecFns;

verus! {

/// Does `pat` occur in `hay` at offset `i`?
pub open spec fn occurs_at(hay: Seq<char>, pat: Seq<char>, i: int) -> bool {
    0 <= i && i + pat.len() <= hay.len() && hay.subrange(i, i + pat.len()) == pat
}

/// The first offset at or after `j` where `pat` occurs, or `-1`.
pub open spec fn first_at(hay: Seq<char>, pat: Seq<char>, j: int) -> int
    decreases hay.len() - j,
{
    if j < 0 || j + pat.len() > hay.len() {
        -1
    } else if pat.len() == 0 {
        j
    } else if hay.subrange(j, j + pat.len()) == pat {
        j
    } else {
        first_at(hay, pat, j + 1)
    }
}

/// The offset of the newline that ends the line holding `start` (or the end
/// of the text).
pub open spec fn spec_line_end(hay: Seq<char>, start: int) -> int
    decreases hay.len() - start,
{
    if start < 0 || start >= hay.len() {
        hay.len() as int
    } else if hay[start] == '\n' {
        start
    } else {
        spec_line_end(hay, start + 1)
    }
}

/// Blank characters stripped around extracted values.
pub open spec fn is_blank(c: char) -> bool {
    c == ' ' || c == '\t' || c == '\r'
}

/// The lower trim bound: first non-blank offset in `[lo, hi)`.
pub open spec fn trim_lo(hay: Seq<char>, lo: int, hi: int) -> int
    decreases hi - lo,
{
    if lo >= hi {
        lo
    } else if is_blank(hay[lo]) {
        trim_lo(hay, lo + 1, hi)
    } else {
        lo
    }
}

/// The upper trim bound: end of the last non-blank run in `[lo, hi)`.
pub open spec fn trim_hi(hay: Seq<char>, lo: int, hi: int) -> int
    decreases hi - lo,
{
    if hi <= lo {
        hi
    } else if is_blank(hay[hi - 1]) {
        trim_hi(hay, lo, hi - 1)
    } else {
        hi
    }
}

/// A decimal digit.
pub open spec fn is_digit(c: char) -> bool {
    48 <= c as u32 <= 57
}

/// Are all characters decimal digits?
pub open spec fn all_digits(s: Seq<char>) -> bool {
    forall|k: int| 0 <= k < s.len() ==> is_digit(#[trigger] s[k])
}

/// The value of a digit string.
pub open spec fn dec_val(s: Seq<char>) -> nat
    decreases s.len(),
{
    if s.len() == 0 {
        0
    } else {
        dec_val(s.drop_last()) * 10 + (s.last() as u32 - 48) as nat
    }
}

/// The trimmed text of `[lo, hi)`, parsed as a 32-bit decimal number.
pub open spec fn parse_trimmed_u32(hay: Seq<char>, lo0: int, hi0: int) -> Option<u32> {
    let lo = trim_lo(hay, lo0, hi0);
    let hi = trim_hi(hay, lo, hi0);
    let t = hay.subrange(lo, hi);
    if t.len() > 0 && all_digits(t) && dec_val(t) <= u32::MAX {
        Some(dec_val(t) as u32)
    } else {
        None
    }
}

/// The user name reported after the first `"ser: "` marker (covering both
/// `"User: "` and `"Matched user: "`), trimmed, up to the end of its line.
pub open spec fn spec_extract_user(hay: Seq<char>) -> Option<Seq<char>> {
    let i = first_at(hay, "ser: "@, 0);
    if i < 0 {
        None
    } else {
        let start = i + 5;
        let e = spec_line_end(hay, start);
        let lo = trim_lo(hay, start, e);
        let hi = trim_hi(hay, lo, e);
        Some(hay.subrange(lo, hi))
    }
}

/// The milliseconds reported after the first `"rocessing time: "` marker and
/// before the following `"ms"`, or, failing that, between `"took "` and
/// `" ms"`.
pub open spec fn spec_extract_time(hay: Seq<char>) -> Option<u32> {
    let i = first_at(hay, "rocessing time: "@, 0);
    if i >= 0 {
        let start = i + 16;
        let m = first_at(hay, "ms"@, start);
        if m < 0 {
            None
        } else {
            parse_trimmed_u32(hay, start, m)
        }
    } else {
        let i2 = first_at(hay, "took "@, 0);
        if i2 < 0 {
            None
        } else {
            let start = i2 + 5;
            let m = first_at(hay, " ms"@, start);
            if m < 0 {
                None
            } else {
                parse_trimmed_u32(hay, start, m)
            }
        }
    }
}

/// Whether `pat` occurs at offset `i` of `s`.
fn match_at(s: &str, pat: &str, i: usize, n: usize, m: usize) -> (r: bool)
    requires
        n == s@.len(),
        m == pat@.len(),
        i + m <= n,
    ensures
        r == (s@.subrange(i as int, i as int + m as int) == pat@),
{
    let mut k: usize = 0;
    while k < m
        invariant
            n == s@.len(),
            m == pat@.len(),
            i + m <= n,
            k <= m,
            forall|l: int| 0 <= l < k ==> s@[i + l] == pat@[l],
        decreases m - k,
    {
        if s.get_char(i + k) != pat.get_char(k) {
            proof {
                assert(s@.subrange(i as int, i as int + m as int)[k as int] != pat@[k as int]);
            }
            return false;
        }
        k = k + 1;
    }
    proof {
        assert(s@.subrange(i as int, i as int + m as int) =~= pat@);
    }
    true
}

/// The first occurrence of `pat` in `s` at or after `from`.
pub fn find_pattern_from(s: &str, pat: &str, from: usize) -> (r: Option<usize>)
    ensures
        match r {
            Some(i) => first_at(s@, pat@, from as int) == i as int,
            None => first_at(s@, pat@, from as int) == -1,
        },
{
    let n = s.unicode_len();
    let m = pat.unicode_len();
    if m > n || m == 0 {
        if m == 0 && from <= n {
            return Some(from);
        }
        return None;
    }
    let mut i = from;
    while i <= n - m
        invariant
            n == s@.len(),
            m == pat@.len(),
            0 < m <= n,
            from <= i,
            first_at(s@, pat@, from as int) == first_at(s@, pat@, i as int),
        decreases n - i,
    {
        if match_at(s, pat, i, n, m) {
            return Some(i);
        }
        i = i + 1;
    }
    None
}

/// The end of the line holding `start`.
fn line_end_from(s: &str, start: usize) -> (r: usize)
    requires
        start <= s@.len(),
    ensures
        r as int == spec_line_end(s@, start as int),
        start <= r <= s@.len(),
{
    let n = s.unicode_len();
    let mut cur = start;
    while cur < n
        invariant
            n == s@.len(),
            start <= cur <= n,
            spec_line_end(s@, start as int) == spec_line_end(s@, cur as int),
        ensures
            cur as int == spec_line_end(s@, start as int),
        decreases n - cur,
    {
        if s.get_char(cur) == '\n' {
            break ;
        }
        cur = cur + 1;
    }
    cur
}

/// The trimmed substring of `[lo0, hi0)`, as an owned string.
fn trimmed_substring(s: &str, lo0: usize, hi0: usize) -> (r: String)
    requires
        lo0 <= hi0 <= s@.len(),
    ensures
        ({
            let lo = trim_lo(s@, lo0 as int, hi0 as int);
            let hi = trim_hi(s@, lo, hi0 as int);
            r@ == s@.subrange(lo, hi)
        }),
{
    let mut lo = lo0;
    while lo < hi0
        invariant
            lo0 <= lo <= hi0 <= s@.len(),
            trim_lo(s@, lo0 as int, hi0 as int) == trim_lo(s@, lo as int, hi0 as int),
        ensures
            lo as int == trim_lo(s@, lo0 as int, hi0 as int),
            lo0 <= lo <= hi0,
        decreases hi0 - lo,
    {
        let c = s.get_char(lo);
        if !(c == ' ' || c == '\t' || c == '\r') {
            break ;
        }
        lo = lo + 1;
    }
    let mut hi = hi0;
    while hi > lo
        invariant
            lo <= hi <= hi0 <= s@.len(),
            trim_hi(s@, lo as int, hi0 as int) == trim_hi(s@, lo as int, hi as int),
        ensures
            hi as int == trim_hi(s@, lo as int, hi0 as int),
            lo <= hi <= hi0,
        decreases hi,
    {
        let c = s.get_char(hi - 1);
        if !(c == ' ' || c == '\t' || c == '\r') {
            break ;
        }
        hi = hi - 1;
    }
    let part = s.substring_char(lo, hi);
    part.to_owned()
}

/// Prefix values never exceed the whole digit string's value.
proof fn lemma_dec_val_mono(t: Seq<char>, k: int)
    requires
        0 <= k <= t.len(),
    ensures
        dec_val(t.take(k)) <= dec_val(t),
    decreases t.len() - k,
{
    if k == t.len() {
        assert(t.take(k) =~= t);
    } else {
        assert(t.take(k + 1).drop_last() =~= t.take(k));
        lemma_dec_val_mono(t, k + 1);
    }
}

/// Parse the trimmed text of `[lo0, hi0)` as a 32-bit decimal number.
fn parse_number(s: &str, lo0: usize, hi0: usize) -> (r: Option<u32>)
    requires
        lo0 <= hi0 <= s@.len(),
    ensures
        r == parse_trimmed_u32(s@, lo0 as int, hi0 as int),
{
    let mut lo = lo0;
    while lo < hi0
        invariant
            lo0 <= lo <= hi0 <= s@.len(),
            trim_lo(s@, lo0 as int, hi0 as int) == trim_lo(s@, lo as int, hi0 as int),
        ensures
            lo as int == trim_lo(s@, lo0 as int, hi0 as int),
            lo0 <= lo <= hi0,
        decreases hi0 - lo,
    {
        let c = s.get_char(lo);
        if !(c == ' ' || c == '\t' || c == '\r') {
            break ;
        }
        lo = lo + 1;
    }
    let mut hi = hi0;
    while hi > lo
        invariant
            lo <= hi <= hi0 <= s@.len(),
            trim_hi(s@, lo as int, hi0 as int) == trim_hi(s@, lo as int, hi as int),
        ensures
            hi as int == trim_hi(s@, lo as int, hi0 as int),
            lo <= hi <= hi0,
        decreases hi,
    {
        let c = s.get_char(hi - 1);
        if !(c == ' ' || c == '\t' || c == '\r') {
            break ;
        }
        hi = hi - 1;
    }
    let ghost t = s@.subrange(lo as int, hi as int);
    if lo == hi {
        return None;
    }
    let mut val: u64 = 0;
    let mut k: usize = 0;
    while k < hi - lo
        invariant
            lo0 <= lo < hi <= hi0 <= s@.len(),
            lo as int == trim_lo(s@, lo0 as int, hi0 as int),
            hi as int == trim_hi(s@, lo as int, hi0 as int),
            k <= hi - lo,
            t == s@.subrange(lo as int, hi as int),
            all_digits(t.take(k as int)),
            val == dec_val(t.take(k as int)),
            val <= u32::MAX,
        decreases hi - lo - k,
    {
        let c = s.get_char(lo + k);
        let cv = c as u32;
        proof {
            assert(t[k as int] == s@[lo + k]);
            assert(t.take(k as int + 1).drop_last() =~= t.take(k as int));
            assert(t.take(k as int + 1).last() == t[k as int]);
        }
        if cv < 48 || cv > 57 {
            proof {
                assert(!is_digit(t[k as int]));
            }
            return None;
        }
        let d = (cv - 48) as u64;
        val = val * 10 + d;
        k = k + 1;
        if val > u32::MAX as u64 {
            proof {
                lemma_dec_val_mono(t, k as int);
            }
            return None;
        }
    }
    proof {
        assert(t.take((hi - lo) as int) =~= t);
    }
    Some(val as u32)
}

/// The user name an external recognizer reported, if any (the text after the
/// first `"ser: "` marker, trimmed, up to the end of its line).
pub fn extract_matched_user_from_output(output: &str) -> (r: Option<String>)
    ensures
        match r {
            Some(u) => spec_extract_user(output@) == Some(u@),
            None => spec_extract_user(output@) is None,
        },
{
    proof {
        reveal_strlit("ser: ");
    }
    match find_pattern_from(output, "ser: ", 0) {
        None => None,
        Some(i) => {
            proof {
                lemma_first_at_occurs(output@, "ser: "@, 0);
                assert(occurs_at(output@, "ser: "@, i as int));
            }
            let n = output.unicode_len();
            let start = i + 5;
            let e = line_end_from(output, start);
            proof {
                lemma_line_end_bounds(output@, start as int);
            }
            Some(trimmed_substring(output, start, e))
        },
    }
}

/// The processing time an external recognizer reported, if any.
pub fn extract_processing_time_from_output(output: &str) -> (r: Option<u32>)
    ensures
        r == spec_extract_time(output@),
{
    proof {
        reveal_strlit("rocessing time: ");
        reveal_strlit("ms");
        reveal_strlit("took ");
        reveal_strlit(" ms");
    }
    match find_pattern_from(output, "rocessing time: ", 0) {
        Some(i) => {
            proof {
                lemma_first_at_occurs(output@, "rocessing time: "@, 0);
            }
            let n = output.unicode_len();
            let start = i + 16;
            match find_pattern_from(output, "ms", start) {
                None => None,
                Some(m) => {
                    proof {
                        lemma_first_at_occurs(output@, "ms"@, start as int);
                        lemma_first_at_lower(output@, "ms"@, start as int);
                    }
                    parse_number(output, start, m)
                },
            }
        },
        None => {
            match find_pattern_from(output, "took ", 0) {
                None => None,
                Some(i2) => {
                    proof {
                        lemma_first_at_occurs(output@, "took "@, 0);
                    }
                    let n = output.unicode_len();
                    let start = i2 + 5;
                    match find_pattern_from(output, " ms", start) {
                        None => None,
                        Some(m) => {
                            proof {
                                lemma_first_at_occurs(output@, " ms"@, start as int);
                                lemma_first_at_lower(output@, " ms"@, start as int);
                            }
                            parse_number(output, start, m)
                        },
                    }
                },
            }
        },
    }
}

/// A non-negative `first_at` result is a real occurrence.
proof fn lemma_first_at_occurs(hay: Seq<char>, pat: Seq<char>, j: int)
    requires
        first_at(hay, pat, j) >= 0,
    ensures
        occurs_at(hay, pat, first_at(hay, pat, j)),
    decreases hay.len() - j,
{
    if !(j < 0 || j + pat.len() > hay.len()) {
        if pat.len() == 0 {
            assert(hay.subrange(j, j) =~= pat);
        } else if hay.subrange(j, j + pat.len()) == pat {
        } else {
            lemma_first_at_occurs(hay, pat, j + 1);
        }
    }
}

/// `first_at` never reports an offset below its starting point.
proof fn lemma_first_at_lower(hay: Seq<char>, pat: Seq<char>, j: int)
    requires
        first_at(hay, pat, j) >= 0,
    ensures
        first_at(hay, pat, j) >= j,
    decreases hay.len() - j,
{
    if !(j < 0 || j + pat.len() > hay.len()) {
        if pat.len() == 0 {
        } else if hay.subrange(j, j + pat.len()) == pat {
        } else {
            lemma_first_at_lower(hay, pat, j + 1);
        }
    }
}

/// The line end lies between `start` and the end of the text.
proof fn lemma_line_end_bounds(hay: Seq<char>, start: int)
    requires
        0 <= start <= hay.len(),
    ensures
        start <= spec_line_end(hay, start) <= hay.len(),
    decreases hay.len() - start,
{
    if start < hay.len() && hay[start] != '\n' {
        lemma_line_end_bounds(hay, start + 1);
    }
}


/// The structured result of one delegated authentication run.  Fractional
/// scores travel as fixed-point integers scaled by [`crate::math::SCALE`].
#[derive(Debug, PartialEq)]
pub struct StandaloneAuthResult {
    pub success: bool,
    pub is_match: Option<bool>,
    pub confidence: Option<u64>,
    pub distance: Option<u64>,
    pub threshold: Option<u64>,
    pub matched_user: Option<String>,
    pub processing_time_ms: Option<u32>,
    pub raw_output: String,
}

/// Configuration of the standalone external recognizer: where its runtime
/// and its script live.  Locating or provisioning them on disk is the
/// caller's job; this core only interprets what the recognizer prints.
pub struct StandalonePythonFaceAuth {
    pub executable_path: String,
    pub script_path: String,
}

impl StandalonePythonFaceAuth {
    /// Bind the recognizer to a resolved runtime and script location.
    pub fn new(executable_path: String, script_path: String) -> (r: StandalonePythonFaceAuth)
        ensures
            r.executable_path@ == executable_path@,
            r.script_path@ == script_path@,
    {
        StandalonePythonFaceAuth { executable_path, script_path }
    }

    /// Interpret the captured output of one finished authentication run.
    ///
    /// The run counts as a match when its output announces
    /// `"Authentication successful"` or shows the check-mark sign; the
    /// matched user and processing time
    /// are scanned out of the text; scores already parsed by the caller are
    /// passed through unchanged.
    pub fn parse_auth_output(
        &self,
        output: String,
        success: bool,
        threshold: Option<u64>,
        confidence: Option<u64>,
        distance: Option<u64>,
    ) -> (r: StandaloneAuthResult)
        ensures
            r.success == success,
            r.is_match == Some(first_at(output@, "Authentication successful"@, 0) >= 0
                || first_at(output@, "\u{2705}"@, 0) >= 0),
            r.confidence == confidence,
            r.distance == distance,
            r.threshold == threshold,
            match r.matched_user {
                Some(u) => spec_extract_user(output@) == Some(u@),
                None => spec_extract_user(output@) is None,
            },
            r.processing_time_ms == spec_extract_time(output@),
            r.raw_output@ == output@,
    {
        proof {
            reveal_strlit("Authentication successful");
            reveal_strlit("\u{2705}");
        }
        let hit = find_pattern_from(output.as_str(), "Authentication successful", 0);
        let mark = find_pattern_from(output.as_str(), "\u{2705}", 0);
        let is_match = match hit {
            Some(_) => true,
            None => match mark {
                Some(_) => true,
                None => false,
            },
        };
        let matched_user = extract_matched_user_from_output(output.as_str());
        let processing_time_ms = extract_processing_time_from_output(output.as_str());
        StandaloneAuthResult {
            success,
            is_match: Some(is_match),
            confidence,
            distance,
            threshold,
            matched_user,
            processing_time_ms,
            raw_output: output,
        }
    }
}

/// Paths of the helper recognizer driven through a local virtual
/// environment.  Whether they exist is for the caller to check.
pub struct PythonFaceAuth {
    pub python_script_path: String,
    pub venv_path: String,
}

impl PythonFaceAuth {
    /// The default script and environment locations.
    pub fn new() -> (r: PythonFaceAuth)
        ensures
            r.python_script_path@ == "python_face_auth_simple.py"@,
            r.venv_path@ == "face_auth_env/bin/python"@,
    {
        PythonFaceAuth {
            python_script_path: String::from_str("python_face_auth_simple.py"),
            venv_path: String::from_str("face_auth_env/bin/python"),
        }
    }
}

} // verus!
