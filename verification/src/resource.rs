use vstd::prelude::*;

verus! {

use crate::error::TrainError;

/// `url::Url`: the parsed, canonical form of the resource's address. Opaque
/// here; the library derives the destination filename from its path and
/// otherwise carries it through to the transport untouched.
#[verifier::external_type_specification]
#[verifier::external_body]
pub struct ExUrl(url::Url);

/// Whether `url::Url::parse` accepts a string as a well-formed absolute URL.
/// Parsing reads nothing but the input, so its success is a function of the
/// characters alone; what it accepts is the url crate's grammar, not stated
/// here.
pub uninterp spec fn url_parse_ok(s: Seq<char>) -> bool;

/// Relies on `url::Url::parse`: returns `Ok` exactly when the input is a
/// well-formed absolute URL, which depends on the input string alone. The
/// parsed value itself is opaque to the library.
pub assume_specification [ url::Url::parse ](input: &str) -> (r: Result<
    url::Url,
    url::ParseError,
>)
    ensures
        r is Ok <==> url_parse_ok(input@),
;

/// Relies on `url::Url::path`: the URL's path component, one string. For URLs
/// that can be a base it starts with `/` and its segments are separated by
/// `/`; nothing of that is assumed here.
pub assume_specification<'a> [ url::Url::path ](u: &'a url::Url) -> (r: &'a str);

/// Relies on `url::Url::cannot_be_a_base`: true for URLs such as
/// `mailto:` ones, whose path has no segments to derive a filename from.
pub assume_specification [ url::Url::cannot_be_a_base ](u: &url::Url) -> (r: bool);

/// `c` is a decimal digit.
pub open spec fn is_dec_digit(c: char) -> bool {
    '0' as u32 <= c as u32 <= '9' as u32
}

/// The numeric value of the decimal digit `c`.
pub open spec fn digit_val(c: char) -> int {
    c as u32 - '0' as u32
}

/// Every character of `s` is a decimal digit.
pub open spec fn all_digits(s: Seq<char>) -> bool {
    forall|i: int| 0 <= i < s.len() ==> is_dec_digit(#[trigger] s[i])
}

/// The number the digit string `s` denotes in base ten.
pub open spec fn digits_value(s: Seq<char>) -> int
    decreases s.len(),
{
    if s.len() == 0 {
        0
    } else {
        digits_value(s.drop_last()) * 10 + digit_val(s.last())
    }
}

/// `s` without its optional leading plus sign, the way the standard unsigned
/// integer parser reads it.
pub open spec fn digits_part(s: Seq<char>) -> Seq<char> {
    if s.len() > 0 && s[0] == '+' {
        s.skip(1)
    } else {
        s
    }
}

/// `s` is an unsigned decimal integer: an optional plus sign, then at least
/// one digit.
pub open spec fn is_valid_size_str(s: Seq<char>) -> bool {
    digits_part(s).len() > 0 && all_digits(digits_part(s))
}

/// A digit string denotes a non-negative number.
proof fn lemma_digits_value_nonneg(s: Seq<char>)
    requires
        all_digits(s),
    ensures
        digits_value(s) >= 0,
    decreases s.len(),
{
    if s.len() > 0 {
        assert(all_digits(s.drop_last()));
        lemma_digits_value_nonneg(s.drop_last());
        assert(is_dec_digit(s[s.len() - 1]));
    }
}

/// Reading more digits never shrinks the denoted number.
proof fn lemma_digits_value_mono(s: Seq<char>, j: int)
    requires
        all_digits(s),
        0 <= j <= s.len(),
    ensures
        digits_value(s) >= digits_value(s.take(j)),
    decreases s.len() - j,
{
    if j < s.len() {
        assert(all_digits(s.take(j)));
        lemma_digits_value_nonneg(s.take(j));
        assert(s.take(j + 1).drop_last() =~= s.take(j));
        assert(is_dec_digit(s[j]));
        assert(digits_value(s.take(j + 1)) == digits_value(s.take(j)) * 10 + digit_val(s[j]));
        lemma_digits_value_mono(s, j + 1);
    } else {
        assert(s.take(j) =~= s);
    }
}

/// Reads a `Content-Length` header value the way the standard unsigned
/// integer parser does: an optional plus sign, then decimal digits. Returns
/// the denoted size, or `None` when the text is not such a number or the
/// number does not fit the machine's word.
pub fn parse_content_length(s: &str) -> (r: Option<usize>)
    ensures
        r is Some <==> is_valid_size_str(s@) && digits_value(digits_part(s@)) <= usize::MAX,
        r matches Some(v) ==> v == digits_value(digits_part(s@)),
{
    let n = s.unicode_len();
    let mut i: usize = 0;
    if n > 0 && s.get_char(0) == '+' {
        i = 1;
    }
    let ghost off = i as int;
    let ghost dp = digits_part(s@);
    proof {
        assert(dp =~= s@.skip(off));
    }
    if i == n {
        return None;
    }
    let mut acc: usize = 0;
    while i < n
        invariant
            n == s@.len(),
            off <= i <= n,
            off == 0 || off == 1,
            dp == digits_part(s@),
            dp =~= s@.skip(off),
            all_digits(dp.take(i - off)),
            acc == digits_value(dp.take(i - off)),
        decreases n - i,
    {
        let c = s.get_char(i);
        let v = c as u32;
        if v < '0' as u32 || v > '9' as u32 {
            proof {
                assert(dp[i - off] == s@[i as int]);
                assert(!is_dec_digit(dp[i - off]));
                assert(!all_digits(dp));
            }
            return None;
        }
        let d = (v - '0' as u32) as usize;
        proof {
            assert(dp[i - off] == s@[i as int]);
            assert(dp.take(i + 1 - off).drop_last() =~= dp.take(i - off));
            assert(dp.take(i + 1 - off).last() == dp[i - off]);
        }
        if acc > (usize::MAX - d) / 10 {
            proof {
                let m = (usize::MAX - d) as int;
                vstd::arithmetic::div_mod::lemma_fundamental_div_mod(m, 10);
                vstd::arithmetic::div_mod::lemma_mod_bound(m, 10);
                vstd::arithmetic::mul::lemma_mul_inequality(m / 10 + 1, acc as int, 10);
                assert(acc * 10 + d > usize::MAX);
                assert(digits_value(dp.take(i + 1 - off)) > usize::MAX);
                if all_digits(dp) {
                    lemma_digits_value_mono(dp, i + 1 - off);
                }
            }
            return None;
        }
        proof {
            let m = (usize::MAX - d) as int;
            vstd::arithmetic::div_mod::lemma_fundamental_div_mod(m, 10);
            vstd::arithmetic::div_mod::lemma_mod_bound(m, 10);
            vstd::arithmetic::mul::lemma_mul_inequality(acc as int, m / 10, 10);
            assert(acc * 10 <= m);
        }
        acc = acc * 10 + d;
        i = i + 1;
    }
    proof {
        assert(dp.take(n - off) =~= dp);
    }
    Some(acc)
}

/// `s` with every trailing slash removed.
pub open spec fn trim_trailing_slashes(s: Seq<char>) -> Seq<char>
    decreases s.len(),
{
    if s.len() > 0 && s.last() == '/' {
        trim_trailing_slashes(s.drop_last())
    } else {
        s
    }
}

/// The suffix of `s` after its final slash; all of `s` when it has none.
pub open spec fn after_last_slash(s: Seq<char>) -> Seq<char>
    decreases s.len(),
{
    if s.len() == 0 {
        s
    } else if s.last() == '/' {
        Seq::empty()
    } else {
        after_last_slash(s.drop_last()).push(s.last())
    }
}

/// The last non-empty slash-separated segment of `s`, if any: the suffix of
/// `s` after the last slash, once trailing slashes are dropped.
pub open spec fn last_nonempty_segment(s: Seq<char>) -> Option<Seq<char>> {
    if trim_trailing_slashes(s).len() == 0 {
        None
    } else {
        Some(after_last_slash(trim_trailing_slashes(s)))
    }
}

/// When everything at and after position `end` is a slash, trimming trailing
/// slashes ignores it.
proof fn lemma_trim_take(s: Seq<char>, end: int)
    requires
        0 <= end <= s.len(),
        forall|k: int| end <= k < s.len() ==> s[k] == '/',
    ensures
        trim_trailing_slashes(s) == trim_trailing_slashes(s.take(end)),
    decreases s.len() - end,
{
    if end == s.len() {
        assert(s.take(end) =~= s);
    } else {
        assert(s.last() == '/');
        assert(s.drop_last() =~= s.take(s.len() - 1));
        lemma_trim_take(s.take(s.len() - 1), end);
        assert(s.take(s.len() - 1).take(end) =~= s.take(end));
    }
}

/// When `s` holds no slash at or after `start`, and `start` sits just past a
/// slash or at the beginning, the suffix after the last slash is exactly
/// `s` from `start` on.
proof fn lemma_after_last_slash_subrange(s: Seq<char>, start: int)
    requires
        0 <= start <= s.len(),
        forall|k: int| start <= k < s.len() ==> s[k] != '/',
        start == 0 || s[start - 1] == '/',
    ensures
        after_last_slash(s) == s.subrange(start, s.len() as int),
    decreases s.len() - start,
{
    if s.len() == start {
        if start == 0 {
            assert(after_last_slash(s) =~= s.subrange(0, 0));
        } else {
            assert(s.last() == '/');
            assert(after_last_slash(s) =~= s.subrange(start, s.len() as int));
        }
    } else {
        assert(s.last() != '/');
        assert(s.drop_last() =~= s.take(s.len() - 1));
        lemma_after_last_slash_subrange(s.take(s.len() - 1), start);
        assert(s.take(s.len() - 1).subrange(start, s.len() - 1).push(s.last()) =~= s.subrange(
            start,
            s.len() as int,
        ));
    }
}

/// Derives the destination filename from a URL path: its last non-empty
/// slash-separated segment. Returns `None` when the path has no such segment,
/// that is, when it is empty or all slashes.
pub fn filename_from_path(path: &str) -> (r: Option<String>)
    ensures
        r is Some <==> last_nonempty_segment(path@) is Some,
        r matches Some(name) ==> last_nonempty_segment(path@) == Some(name@),
{
    let n = path.unicode_len();
    let mut end = n;
    while end > 0 && path.get_char(end - 1) == '/'
        invariant
            end <= n,
            n == path@.len(),
            forall|k: int| end <= k < n ==> path@[k] == '/',
        decreases end,
    {
        end = end - 1;
    }
    proof {
        lemma_trim_take(path@, end as int);
    }
    if end == 0 {
        return None;
    }
    let ghost t = path@.take(end as int);
    proof {
        assert(t.last() != '/');
        assert(trim_trailing_slashes(t) == t);
    }
    let mut start = end;
    while start > 0 && path.get_char(start - 1) != '/'
        invariant
            start <= end <= n,
            n == path@.len(),
            forall|k: int| start <= k < end ==> path@[k] != '/',
        decreases start,
    {
        start = start - 1;
    }
    proof {
        assert(forall|k: int| start <= k < t.len() ==> t[k] != '/');
        lemma_after_last_slash_subrange(t, start as int);
        assert(t.subrange(start as int, end as int) =~= path@.subrange(
            start as int,
            end as int,
        ));
    }
    let seg = path.substring_char(start, end);
    Some(String::from_str(seg))
}

/// The probed description of the remote resource, immutable for the rest of
/// the job and shared read-only by every worker.
#[derive(Debug)]
pub struct Resource {
    /// The canonical URL, after redirects.
    pub url: url::Url,
    /// The total size in bytes, when the probe response carried a length
    /// header that parses as an unsigned integer.
    pub size: Option<usize>,
    /// The destination filename.
    pub dest: String,
}

/// Builds the `Resource` a probe response describes: the canonical URL is
/// re-parsed, the size is read from the length header when one is present,
/// and the destination falls back to the last non-empty path segment of the
/// URL when the caller supplied none.
pub fn resource_from_probe(final_url: &str, content_length: Option<&str>, output: Option<String>)
    -> (r: Result<Resource, TrainError>)
    ensures
        r matches Ok(res) ==> {
            &&& content_length is None ==> res.size is None
            &&& content_length matches Some(cl) ==> {
                &&& res.size is Some <==> is_valid_size_str(cl@) && digits_value(digits_part(cl@))
                    <= usize::MAX
                &&& res.size matches Some(v) ==> v == digits_value(digits_part(cl@))
            }
            &&& output matches Some(o) ==> res.dest == o
        },
        r matches Err(e) ==> {
            &&& e is UrlParseError || e is FilenameParseError
            &&& e is FilenameParseError ==> output is None
        },
        (r matches Err(e) && e is UrlParseError) <==> !url_parse_ok(final_url@),
        url_parse_ok(final_url@) && output is Some ==> r is Ok,
{
    let url = match url::Url::parse(final_url) {
        Ok(u) => u,
        Err(e) => {
            return Err(TrainError::UrlParseError(e));
        },
    };
    let size = match content_length {
        Some(cl) => parse_content_length(cl),
        None => None,
    };
    let dest = match output {
        Some(o) => o,
        None => {
            if url.cannot_be_a_base() {
                return Err(TrainError::FilenameParseError);
            }
            match filename_from_path(url.path()) {
                Some(name) => name,
                None => {
                    return Err(TrainError::FilenameParseError);
                },
            }
        },
    };
    Ok(Resource { url, size, dest })
}

/// Turns the configured chunk size in megabytes into bytes.
pub fn chunk_size_bytes(chunk_mb: usize) -> (r: usize)
    requires
        chunk_mb * 1024 * 1024 <= usize::MAX,
    ensures
        r == chunk_mb * 1024 * 1024,
        chunk_mb > 0 ==> r > 0,
{
    chunk_mb * 1024 * 1024
}

} // verus!
