//! The limits that steer the optimizer, and how they are read from text settings.

use vstd::prelude::*;

verus! {

pub const DEFAULT_OPEN_TRANSITIVE_PATH_FACTOR: usize = 100_000;

pub const DEFAULT_OPEN_TRANSITIVE_PATH_MIN_COST: usize = 1_000_000;

pub const DEFAULT_OPEN_TRANSITIVE_PATH_FULL_SCAN_COST: usize = 1_000_000_000;

pub const DEFAULT_TRANSITIVE_LATERAL_MAX_LEFT_SIZE: usize = 16;

pub const DEFAULT_SUBCLASS_TRANSITIVE_LATERAL_MAX_LEFT_SIZE: usize = 10_000;

pub const DEFAULT_SUBCLASS_FOR_LOOP_MAX_LEFT_SIZE: usize = 10_000;

pub const DEFAULT_FILTER_EXISTS_REORDER_MIN_CORRELATED_VARS: usize = 5;

pub const DEFAULT_JOIN_UNION_DISTRIBUTION_MAX_FACTOR_COST: usize = 1_000_000;

pub const DEFAULT_JOIN_UNION_DISTRIBUTION_MAX_BRANCHES: usize = 8;

/// The limits that steer the optimizer.
///
/// Open Kleene paths (`p*`, `p+`) are often much more expensive than plain
/// triple patterns, even with one bound endpoint, because they may traverse
/// much of the graph before joins can reduce the number of solutions.
#[derive(Debug, Clone, Copy, PartialEq, Eq, Structural)]
pub struct Limits {
    /// How many times larger than its step an open transitive path is.
    pub open_transitive_path_factor: usize,
    /// The least cost of a transitive path with one open end.
    pub open_transitive_path_min_cost: usize,
    /// The least cost of a transitive path with two open ends.
    pub open_transitive_path_full_scan_cost: usize,
    /// The largest left side for which a transitive path is looked up row by row.
    pub transitive_lateral_max_left_size: usize,
    /// The same for a transitive subclass path that starts from its bound end.
    pub subclass_transitive_lateral_max_left_size: usize,
    /// The largest left side for which a subclass triple is looked up row by row.
    pub subclass_for_loop_max_left_size: usize,
    /// The least number of outer variables for which an EXISTS is optimized on its own.
    pub filter_exists_reorder_min_correlated_vars: usize,
    /// The largest factor that is copied into the branches of a union.
    pub join_union_distribution_max_factor_cost: usize,
    /// The largest number of branches into which a factor is copied.
    pub join_union_distribution_max_branches: usize,
}

pub open spec fn default_limits() -> Limits {
    Limits {
        open_transitive_path_factor: DEFAULT_OPEN_TRANSITIVE_PATH_FACTOR,
        open_transitive_path_min_cost: DEFAULT_OPEN_TRANSITIVE_PATH_MIN_COST,
        open_transitive_path_full_scan_cost: DEFAULT_OPEN_TRANSITIVE_PATH_FULL_SCAN_COST,
        transitive_lateral_max_left_size: DEFAULT_TRANSITIVE_LATERAL_MAX_LEFT_SIZE,
        subclass_transitive_lateral_max_left_size:
            DEFAULT_SUBCLASS_TRANSITIVE_LATERAL_MAX_LEFT_SIZE,
        subclass_for_loop_max_left_size: DEFAULT_SUBCLASS_FOR_LOOP_MAX_LEFT_SIZE,
        filter_exists_reorder_min_correlated_vars:
            DEFAULT_FILTER_EXISTS_REORDER_MIN_CORRELATED_VARS,
        join_union_distribution_max_factor_cost: DEFAULT_JOIN_UNION_DISTRIBUTION_MAX_FACTOR_COST,
        join_union_distribution_max_branches: DEFAULT_JOIN_UNION_DISTRIBUTION_MAX_BRANCHES,
    }
}

impl Default for Limits {
    fn default() -> (r: Self)
        ensures
            r == default_limits(),
    {
        Limits {
            open_transitive_path_factor: DEFAULT_OPEN_TRANSITIVE_PATH_FACTOR,
            open_transitive_path_min_cost: DEFAULT_OPEN_TRANSITIVE_PATH_MIN_COST,
            open_transitive_path_full_scan_cost: DEFAULT_OPEN_TRANSITIVE_PATH_FULL_SCAN_COST,
            transitive_lateral_max_left_size: DEFAULT_TRANSITIVE_LATERAL_MAX_LEFT_SIZE,
            subclass_transitive_lateral_max_left_size:
                DEFAULT_SUBCLASS_TRANSITIVE_LATERAL_MAX_LEFT_SIZE,
            subclass_for_loop_max_left_size: DEFAULT_SUBCLASS_FOR_LOOP_MAX_LEFT_SIZE,
            filter_exists_reorder_min_correlated_vars:
                DEFAULT_FILTER_EXISTS_REORDER_MIN_CORRELATED_VARS,
            join_union_distribution_max_factor_cost:
                DEFAULT_JOIN_UNION_DISTRIBUTION_MAX_FACTOR_COST,
            join_union_distribution_max_branches: DEFAULT_JOIN_UNION_DISTRIBUTION_MAX_BRANCHES,
        }
    }
}

/// The characters with the Unicode property White_Space.
pub open spec fn is_white_space(c: char) -> bool {
    let code = c as u32;
    0x9 <= code <= 0xd || code == 0x20 || code == 0x85 || code == 0xa0 || code == 0x1680
        || 0x2000 <= code <= 0x200a || code == 0x2028 || code == 0x2029 || code == 0x202f
        || code == 0x205f || code == 0x3000
}

/// A text without the white space at its start.
pub open spec fn trim_start(text: Seq<char>) -> Seq<char>
    decreases text.len(),
{
    if text.len() > 0 && is_white_space(text.first()) {
        trim_start(text.drop_first())
    } else {
        text
    }
}

/// A text without the white space at its end.
pub open spec fn trim_end(text: Seq<char>) -> Seq<char>
    decreases text.len(),
{
    if text.len() > 0 && is_white_space(text.last()) {
        trim_end(text.drop_last())
    } else {
        text
    }
}

pub open spec fn is_digit(c: char) -> bool {
    '0' <= c <= '9'
}

/// The number that a row of decimal digits stands for.
pub open spec fn digits_value(digits: Seq<char>) -> nat
    decreases digits.len(),
{
    if digits.len() == 0 {
        0
    } else {
        digits_value(digits.drop_last()) * 10 + (digits.last() as nat - '0' as nat) as nat
    }
}

/// What follows a leading plus sign.
pub open spec fn without_sign(text: Seq<char>) -> Seq<char> {
    if text.len() > 0 && text.first() == '+' {
        text.drop_first()
    } else {
        text
    }
}

/// The number that a text stands for: an optional plus sign, then at least one
/// decimal digit and nothing else, if the number is in range.
pub open spec fn decimal(text: Seq<char>) -> Option<usize> {
    let digits = without_sign(text);
    if digits.len() > 0 && (forall|i: int| 0 <= i < digits.len() ==> is_digit(#[trigger] digits[i]))
        && digits_value(digits) <= usize::MAX {
        Some(digits_value(digits) as usize)
    } else {
        None
    }
}

/// The value of a setting: the number in its text, or else the default.
pub open spec fn setting_value(text: Option<Seq<char>>, default: usize) -> usize {
    match text {
        Some(text) => match decimal(trim_end(trim_start(text))) {
            Some(value) => value,
            None => default,
        },
        None => default,
    }
}

/// The value of a setting that cannot be zero.
pub open spec fn positive_setting_value(text: Option<Seq<char>>, default: usize) -> usize {
    let value = setting_value(text, default);
    if value > 0 {
        value
    } else {
        default
    }
}

/// What a setting's text consists of, if it is set.
pub open spec fn text_view(text: Option<&str>) -> Option<Seq<char>> {
    match text {
        Some(text) => Some(text@),
        None => None,
    }
}

/// `str::trim`, trusted to remove the leading and the trailing characters that
/// have the Unicode property White_Space, and nothing else.
#[verifier::external_body]
fn trim(text: &str) -> (r: &str)
    ensures
        r@ == trim_end(trim_start(text@)),
{
    text.trim()
}

/// `str::parse::<usize>`, trusted to accept an optional plus sign followed by
/// decimal digits, at least one and nothing else, of a number in range, and to
/// give that number.
#[verifier::external_body]
fn parse_usize(text: &str) -> (r: Option<usize>)
    ensures
        r == decimal(text@),
{
    text.parse::<usize>().ok()
}

/// The number in a setting's text, or the default where there is none.
pub fn setting(text: Option<&str>, default: usize) -> (r: usize)
    ensures
        r == setting_value(text_view(text), default),
{
    match text {
        Some(text) => match parse_usize(trim(text)) {
            Some(value) => value,
            None => default,
        },
        None => default,
    }
}

/// The number in a setting's text, or the default where there is none or it is zero.
pub fn positive_setting(text: Option<&str>, default: usize) -> (r: usize)
    ensures
        r == positive_setting_value(text_view(text), default),
{
    let value = setting(text, default);
    if value > 0 {
        value
    } else {
        default
    }
}

/// The value of the setting `open_transitive_path_factor`.
pub fn open_transitive_path_factor(text: Option<&str>) -> (r: usize)
    ensures
        r == positive_setting_value(text_view(text), DEFAULT_OPEN_TRANSITIVE_PATH_FACTOR),
{
    positive_setting(text, DEFAULT_OPEN_TRANSITIVE_PATH_FACTOR)
}

/// The value of the setting `open_transitive_path_min_cost`.
pub fn open_transitive_path_min_cost(text: Option<&str>) -> (r: usize)
    ensures
        r == positive_setting_value(text_view(text), DEFAULT_OPEN_TRANSITIVE_PATH_MIN_COST),
{
    positive_setting(text, DEFAULT_OPEN_TRANSITIVE_PATH_MIN_COST)
}

/// The value of the setting `open_transitive_path_full_scan_cost`.
pub fn open_transitive_path_full_scan_cost(text: Option<&str>) -> (r: usize)
    ensures
        r == positive_setting_value(text_view(text), DEFAULT_OPEN_TRANSITIVE_PATH_FULL_SCAN_COST),
{
    positive_setting(text, DEFAULT_OPEN_TRANSITIVE_PATH_FULL_SCAN_COST)
}

/// The value of the setting `transitive_lateral_max_left_size`.
pub fn transitive_lateral_max_left_size(text: Option<&str>) -> (r: usize)
    ensures
        r == setting_value(text_view(text), DEFAULT_TRANSITIVE_LATERAL_MAX_LEFT_SIZE),
{
    setting(text, DEFAULT_TRANSITIVE_LATERAL_MAX_LEFT_SIZE)
}

/// The value of the setting `subclass_transitive_lateral_max_left_size`.
pub fn subclass_transitive_lateral_max_left_size(text: Option<&str>) -> (r: usize)
    ensures
        r == setting_value(text_view(text), DEFAULT_SUBCLASS_TRANSITIVE_LATERAL_MAX_LEFT_SIZE),
{
    setting(text, DEFAULT_SUBCLASS_TRANSITIVE_LATERAL_MAX_LEFT_SIZE)
}

/// The value of the setting `subclass_for_loop_max_left_size`.
pub fn subclass_for_loop_max_left_size(text: Option<&str>) -> (r: usize)
    ensures
        r == setting_value(text_view(text), DEFAULT_SUBCLASS_FOR_LOOP_MAX_LEFT_SIZE),
{
    setting(text, DEFAULT_SUBCLASS_FOR_LOOP_MAX_LEFT_SIZE)
}

/// The value of the setting `filter_exists_reorder_min_correlated_vars`.
pub fn filter_exists_reorder_min_correlated_vars(text: Option<&str>) -> (r: usize)
    ensures
        r == setting_value(text_view(text), DEFAULT_FILTER_EXISTS_REORDER_MIN_CORRELATED_VARS),
{
    setting(text, DEFAULT_FILTER_EXISTS_REORDER_MIN_CORRELATED_VARS)
}

/// The value of the setting `join_union_distribution_max_factor_cost`.
pub fn join_union_distribution_max_factor_cost(text: Option<&str>) -> (r: usize)
    ensures
        r == setting_value(text_view(text), DEFAULT_JOIN_UNION_DISTRIBUTION_MAX_FACTOR_COST),
{
    setting(text, DEFAULT_JOIN_UNION_DISTRIBUTION_MAX_FACTOR_COST)
}

/// The value of the setting `join_union_distribution_max_branches`.
pub fn join_union_distribution_max_branches(text: Option<&str>) -> (r: usize)
    ensures
        r == setting_value(text_view(text), DEFAULT_JOIN_UNION_DISTRIBUTION_MAX_BRANCHES),
{
    setting(text, DEFAULT_JOIN_UNION_DISTRIBUTION_MAX_BRANCHES)
}

} // verus!
