//! State behind the interactive shell, and the validation of the size limit
//! the user types before a scan may start.

use vstd::prelude::*;

verus! {

/// The state behind the interactive shell: the chosen folder, the rendered
/// document, the size limit as typed, any error text, and whether the
/// output panel is expanded.
pub struct ContextorApp {
    pub selected_folder: Option<String>,
    pub output_preview: String,
    pub max_file_size: String,
    pub error_message: Option<String>,
    pub output_expanded: bool,
}

impl Default for ContextorApp {
    /// The state before any interaction: no folder, a prompt in the
    /// preview, a one-megabyte default limit, no error, collapsed output.
    fn default() -> (r: Self)
        ensures
            r.selected_folder is None,
            r.output_preview@ == "Select a folder to generate a summary"@,
            r.max_file_size@ == "1000000"@,
            r.error_message is None,
            !r.output_expanded,
    {
        ContextorApp {
            selected_folder: None,
            output_preview: String::from_str("Select a folder to generate a summary"),
            max_file_size: String::from_str("1000000"),
            error_message: None,
            output_expanded: false,
        }
    }
}

impl ContextorApp {
    /// The size limit this state would scan with: the typed text read as a
    /// positive decimal number, if it is one.
    pub fn validated_max_file_size(&self) -> (r: Option<u64>)
        ensures
            r == spec_parse_size(self.max_file_size@),
    {
        parse_max_file_size(self.max_file_size.as_str())
    }
}

/// Whether `c` is a decimal digit.
pub open spec fn is_digit(c: char) -> bool {
    48 <= c as u32 <= 57
}

/// Whether every character of `s` is a decimal digit.
pub open spec fn all_digits(s: Seq<char>) -> bool {
    forall|i: int| 0 <= i < s.len() ==> is_digit(s[i])
}

/// The number that the digit string `s` denotes.
pub open spec fn digits_val(s: Seq<char>) -> int
    decreases s.len(),
{
    if s.len() == 0 {
        0
    } else {
        digits_val(s.drop_last()) * 10 + (s.last() as u32 - 48)
    }
}

/// What parsing a size limit yields: the denoted number when `s` is a
/// nonempty digit string denoting a positive value that a 64-bit count can
/// hold, and nothing otherwise.
pub open spec fn spec_parse_size(s: Seq<char>) -> Option<u64> {
    if s.len() > 0 && all_digits(s) && 0 < digits_val(s) <= u64::MAX {
        Option::Some(digits_val(s) as u64)
    } else {
        Option::None
    }
}

/// A digit string denotes a value no smaller than any of its prefixes
/// denote.
proof fn lemma_digits_prefix_le(s: Seq<char>, j: int)
    requires
        0 <= j <= s.len(),
        all_digits(s),
    ensures
        0 <= digits_val(s.take(j)) <= digits_val(s),
    decreases s.len() - j,
{
    if j == s.len() {
        assert(s.take(j) =~= s);
        lemma_digits_nonneg(s);
    } else {
        lemma_digits_prefix_le(s, j + 1);
        let t = s.take(j + 1);
        assert(t.drop_last() =~= s.take(j));
        assert(t.last() == s[j]);
        assert(is_digit(s[j]));
        assert(digits_val(s.take(j)) * 10 + (s[j] as u32 - 48) == digits_val(t));
        assert(0 <= digits_val(s.take(j))) by {
            assert(forall|m: int| 0 <= m < j ==> s.take(j)[m] == s[m] && is_digit(s[m]));
            lemma_digits_nonneg(s.take(j));
        }
        assert(digits_val(s.take(j)) <= digits_val(t)) by (nonlinear_arith)
            requires
                digits_val(t) == digits_val(s.take(j)) * 10 + (s[j] as u32 - 48),
                0 <= digits_val(s.take(j)),
                0 <= s[j] as u32 - 48,
        ;
    }
}

/// A digit string denotes a nonnegative value.
proof fn lemma_digits_nonneg(s: Seq<char>)
    requires
        all_digits(s),
    ensures
        0 <= digits_val(s),
    decreases s.len(),
{
    if s.len() > 0 {
        assert(all_digits(s.drop_last())) by {
            assert(forall|i: int|
                0 <= i < s.len() - 1 ==> s.drop_last()[i] == s[i] && is_digit(s[i]));
        }
        lemma_digits_nonneg(s.drop_last());
        assert(is_digit(s.last()));
    }
}

/// Reads a size limit: a nonempty string of decimal digits denoting a
/// positive value that fits a 64-bit count; anything else is rejected.
pub fn parse_max_file_size(s: &str) -> (r: Option<u64>)
    ensures
        r == spec_parse_size(s@),
{
    let n = s.unicode_len();
    if n == 0 {
        return None;
    }
    let mut acc: u64 = 0;
    let mut i: usize = 0;
    while i < n
        invariant
            0 < n == s@.len(),
            i <= n,
            all_digits(s@.take(i as int)),
            acc == digits_val(s@.take(i as int)),
        decreases n - i,
    {
        let c = s.get_char(i);
        let cv = c as u32;
        if cv < 48 || cv > 57 {
            assert(!is_digit(s@[i as int]));
            return None;
        }
        let d: u64 = (cv - 48) as u64;
        proof {
            let t = s@.take(i + 1);
            assert(t.drop_last() =~= s@.take(i as int));
            assert(t.last() == s@[i as int]);
        }
        if acc > (u64::MAX - d) / 10 {
            proof {
                let hi = digits_val(s@.take(i + 1));
                assert(hi == acc * 10 + d);
                assert(hi > u64::MAX) by (nonlinear_arith)
                    requires
                        hi == acc * 10 + d,
                        acc > (u64::MAX - d) / 10,
                        0 <= d <= 9,
                        acc <= u64::MAX,
                ;
                if all_digits(s@) {
                    lemma_digits_prefix_le(s@, i + 1);
                }
            }
            return None;
        }
        acc = acc * 10 + d;
        i += 1;
    }
    proof {
        assert(s@.take(n as int) =~= s@);
    }
    if acc == 0 {
        return None;
    }
    Some(acc)
}

} // verus!
