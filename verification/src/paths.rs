//! Problem numbers in file names and paths.
use vstd::prelude::*;

verus! {

/// An ASCII decimal digit.
pub open spec fn is_digit(c: char) -> bool {
    48 <= (c as int) <= 57
}

pub open spec fn all_digits(s: Seq<char>) -> bool {
    forall|i: int| 0 <= i < s.len() ==> #[trigger] is_digit(s[i])
}

/// Value of a run of decimal digits.
pub open spec fn digits_value(s: Seq<char>) -> int
    decreases s.len(),
{
    if s.len() == 0 {
        0
    } else {
        digits_value(s.drop_last()) * 10 + ((s.last() as int) - 48)
    }
}

#[verifier::opaque]
/// What `str::parse::<i32>` accepts: an optional `+` or `-`, then at least
/// one decimal digit, with a value that fits in `i32`.
pub open spec fn parse_i32(s: Seq<char>) -> Option<i32> {
    if s.len() > 0 && s[0] == '-' {
        let d = s.drop_first();
        if d.len() > 0 && all_digits(d) && -digits_value(d) >= i32::MIN {
            Some((-digits_value(d)) as i32)
        } else {
            None
        }
    } else {
        let d = if s.len() > 0 && s[0] == '+' {
            s.drop_first()
        } else {
            s
        };
        if d.len() > 0 && all_digits(d) && digits_value(d) <= i32::MAX {
            Some(digits_value(d) as i32)
        } else {
            None
        }
    }
}

/// A run of decimal digits spells a non-negative number, and at least the
/// number that any of its prefixes spells.
proof fn lemma_digits_prefix(d: Seq<char>, k: int)
    requires
        all_digits(d),
        0 <= k <= d.len(),
    ensures
        0 <= digits_value(d.take(k)) <= digits_value(d),
    decreases d.len(),
{
    if k < d.len() {
        let e = d.drop_last();
        assert(all_digits(e)) by {
            assert forall|i: int| 0 <= i < e.len() implies #[trigger] is_digit(e[i]) by {
                assert(is_digit(d[i]));
            }
        }
        assert(is_digit(d[d.len() - 1]));
        lemma_digits_prefix(e, k);
        lemma_digits_prefix(e, e.len() as int);
        assert(e.take(k) =~= d.take(k));
        assert(e.take(e.len() as int) =~= e);
    } else {
        assert(d.take(k) =~= d);
        if d.len() > 0 {
            let e = d.drop_last();
            assert(all_digits(e)) by {
                assert forall|i: int| 0 <= i < e.len() implies #[trigger] is_digit(e[i]) by {
                    assert(is_digit(d[i]));
                }
            }
            assert(is_digit(d[d.len() - 1]));
            lemma_digits_prefix(e, e.len() as int);
            assert(e.take(e.len() as int) =~= e);
        }
    }
}

/// `s` read as an `i32` the way `str::parse::<i32>` reads it: an optional
/// `+` or `-`, then decimal digits whose value fits.
pub(crate) fn parse_i32_str(s: &str) -> (r: Option<i32>)
    ensures
        r == parse_i32(s@),
{
    proof {
        reveal(parse_i32);
    }
    let n = s.unicode_len();
    if n == 0 {
        return None;
    }
    let first = s.get_char(0);
    let start: usize = if first == '-' || first == '+' {
        1
    } else {
        0
    };
    let ghost d = s@.subrange(start as int, n as int);
    proof {
        if start == 1 {
            assert(d =~= s@.drop_first());
        } else {
            assert(d =~= s@);
        }
    }
    if start == n {
        return None;
    }
    let mut acc: i64 = 0;
    let mut i: usize = start;
    while i < n
        invariant
            n == s@.len(),
            start <= i <= n,
            start <= 1,
            n > 0,
            first == s@[0],
            (first == '-' || first == '+') <==> start == 1,
            d == s@.subrange(start as int, n as int),
            start == 1 ==> d == s@.drop_first(),
            start == 0 ==> d == s@,
            0 <= acc <= 2147483648,
            all_digits(d.take(i - start)),
            acc == digits_value(d.take(i - start)),
        decreases n - i,
    {
        let c = s.get_char(i);
        let code = c as u32;
        if code < 48 || code > 57 {
            proof {
                assert(d[i - start] == c);
                assert(!is_digit(d[i - start]));
                assert(!all_digits(d));
                reveal(parse_i32);
            }
            return None;
        }
        let ghost prev = d.take(i - start);
        acc = acc * 10 + (code - 48) as i64;
        proof {
            let next = d.take(i + 1 - start);
            assert(next.drop_last() =~= prev);
            assert(next.last() == c);
            assert(digits_value(next) == digits_value(prev) * 10 + ((c as int) - 48));
            assert(acc == digits_value(next));
            assert(all_digits(next)) by {
                assert forall|j: int| 0 <= j < next.len() implies #[trigger] is_digit(next[j]) by {
                    if j < prev.len() {
                        assert(next[j] == prev[j]);
                    }
                }
            }
        }
        if acc > 2147483648 {
            proof {
                reveal(parse_i32);
                if all_digits(d) {
                    lemma_digits_prefix(d, i + 1 - start);
                    assert(digits_value(d) > 2147483648);
                }
            }
            return None;
        }
        i = i + 1;
    }
    proof {
        assert(d.take(n - start) =~= d);
    }
    if first == '-' {
        Some((-acc) as i32)
    } else if acc <= 2147483647 {
        Some(acc as i32)
    } else {
        None
    }
}

/// First capture group of the leftmost match of a regular expression; the
/// empty text when the group did not take part in the match; `None` when
/// the pattern is invalid or does not match.
pub uninterp spec fn regex_first_capture(pattern: Seq<char>, text: Seq<char>) -> Option<Seq<char>>;

/// `regex::Regex::new(pattern)` followed by `captures(text)` and the text of
/// group 1 (`""` when absent). The result is named, not described: it is
/// that of the `regex` crate's matching, a function of the two texts.
#[verifier::external_body]
fn first_capture(pattern: &str, text: &str) -> (r: Option<String>)
    ensures
        r matches Some(s) ==> regex_first_capture(pattern@, text@) == Some(s@),
        r is None ==> regex_first_capture(pattern@, text@) is None,
{
    match regex::Regex::new(pattern) {
        Ok(re) => re.captures(text).map(|caps| caps.get(1).map_or("", |m| m.as_str()).to_string()),
        Err(_) => None,
    }
}

/// The pattern of the names of problem files: `problem-<n>.json` or
/// `problems-<n>.json`.
pub open spec fn problem_file_pattern() -> Seq<char> {
    "problems?-([0-9]+)\\.json"@
}

/// The number that a path of a problem file names, if the path has one and
/// it fits in `i32`.
pub open spec fn problem_id_of(path: Seq<char>) -> Option<i32> {
    match regex_first_capture(problem_file_pattern(), path) {
        Some(digits) => parse_i32(digits),
        None => None,
    }
}

/// The problem number in a path such as `problems/problem-12.json`.
pub fn problem_id_from_path(path: &str) -> (id: i32)
    requires
        problem_id_of(path@) is Some,
    ensures
        Some(id) == problem_id_of(path@),
{
    let pattern = "problems?-([0-9]+)\\.json";
    let caps = first_capture(pattern, path);
    let num_str = caps.unwrap();
    parse_i32_str(num_str.as_str()).unwrap()
}

/// The problem number in a path, or `None` where `problem_id_from_path`
/// has none to give: it tests the match first and reads the number only
/// from a path that has one.
pub fn try_problem_id_from_path(path: &str) -> (id: Option<i32>)
    ensures
        id == problem_id_of(path@),
{
    let pattern = "problems?-([0-9]+)\\.json";
    match first_capture(pattern, path) {
        Some(num_str) => match parse_i32_str(num_str.as_str()) {
            Some(_) => Some(problem_id_from_path(path)),
            None => None,
        },
        None => None,
    }
}

/// Index of the first occurrence of `c`.
pub open spec fn first_index_of(s: Seq<char>, c: char) -> Option<int> {
    if exists|i: int| 0 <= i < s.len() && s[i] == c {
        Some(choose|i: int| 0 <= i < s.len() && s[i] == c && forall|j: int| 0 <= j < i ==> s[j] != c)
    } else {
        None
    }
}

/// The number between the first `-` and the first `.` of a file name, such
/// as 12 in `problem-12.json`; `None` when either is missing, the `.` comes
/// first, or the text between them is not an `i32`.
pub open spec fn file_name_number(name: Seq<char>) -> Option<i32> {
    match (first_index_of(name, '-'), first_index_of(name, '.')) {
        (Some(a), Some(b)) => if a + 1 <= b {
            parse_i32(name.subrange(a + 1, b))
        } else {
            None
        },
        _ => None,
    }
}

/// Finds the first occurrence of `c` in `s`.
fn find_char(s: &str, c: char) -> (r: Option<usize>)
    ensures
        s@.len() <= usize::MAX,
        r matches Some(i) ==> i < s@.len() && first_index_of(s@, c) == Some(i as int),
        r is None ==> first_index_of(s@, c) is None,
{
    let n = s.unicode_len();
    let mut i: usize = 0;
    while i < n
        invariant
            n == s@.len(),
            i <= n,
            forall|j: int| 0 <= j < i ==> s@[j] != c,
        decreases n - i,
    {
        if s.get_char(i) == c {
            proof {
                let k = choose|k: int|
                    0 <= k < s@.len() && s@[k] == c && forall|j: int| 0 <= j < k ==> s@[j] != c;
                assert(k == i) by {
                    if k < i {
                    } else if k > i {
                        assert(s@[i as int] == c);
                    }
                }
            }
            return Some(i);
        }
        i = i + 1;
    }
    None
}

/// The number between the first `-` and the first `.` of a file name.
pub fn number_from_file_name(name: &str) -> (r: Option<i32>)
    ensures
        r == file_name_number(name@),
{
    let start = match find_char(name, '-') {
        Some(a) => a + 1,
        None => {
            return None;
        },
    };
    let end = match find_char(name, '.') {
        Some(b) => b,
        None => {
            return None;
        },
    };
    if start > end {
        return None;
    }
    let digits = name.substring_char(start, end);
    let r = parse_i32_str(digits);
    assert(digits@ == name@.subrange(start as int, end as int));
    r
}


/// Index `k` occurs in `order`.
pub open spec fn listed(order: Seq<usize>, k: int) -> bool {
    exists|i: int| 0 <= i < order.len() && order[i] == k
}

/// Item `x` comes before item `y` when its number is smaller, or the
/// numbers are equal and it came first.
pub open spec fn comes_before(numbers: Seq<i32>, x: int, y: int) -> bool {
    numbers[x] < numbers[y] || (numbers[x] == numbers[y] && x < y)
}

/// The order in which items are listed when sorted by their numbers,
/// keeping items with equal numbers in their first order: each index of
/// `numbers` once, ascending by number, ties by index.
pub fn order_by_number(numbers: &Vec<i32>) -> (order: Vec<usize>)
    ensures
        order@.len() == numbers@.len(),
        forall|i: int| 0 <= i < order@.len() ==> #[trigger] order@[i] < numbers@.len(),
        forall|i: int, j: int|
            0 <= i < j < order@.len() ==> comes_before(numbers@, #[trigger] order@[i] as int, #[trigger] order@[j] as int),
        forall|k: int| 0 <= k < numbers@.len() ==> #[trigger] listed(order@, k),
{
    let n = numbers.len();
    let mut order: Vec<usize> = Vec::new();
    let mut i: usize = 0;
    while i < n
        invariant
            n == numbers@.len(),
            i <= n,
            order@.len() == i,
            forall|q: int| 0 <= q < order@.len() ==> #[trigger] order@[q] < i,
            forall|q: int, r: int|
                0 <= q < r < order@.len() ==> comes_before(numbers@, #[trigger] order@[q] as int, #[trigger] order@[r] as int),
            forall|k: int| 0 <= k < i ==> #[trigger] listed(order@, k),
        decreases n - i,
    {
        let key = numbers[i];
        let mut p: usize = 0;
        while p < order.len() && numbers[order[p]] <= key
            invariant
                n == numbers@.len(),
                i < n,
                key == numbers@[i as int],
                order@.len() == i,
                p <= order@.len(),
                forall|q: int| 0 <= q < order@.len() ==> #[trigger] order@[q] < i,
                forall|q: int| 0 <= q < p ==> numbers@[#[trigger] order@[q] as int] <= key,
            decreases order@.len() - p,
        {
            p = p + 1;
        }
        let ghost before_insert = order@;
        proof {
            assert forall|q: int| p <= q < order@.len() implies key < numbers@[#[trigger] order@[q] as int] by {
                if q > p {
                    assert(comes_before(numbers@, order@[p as int] as int, order@[q] as int));
                }
            }
        }
        order.insert(p, i);
        proof {
            assert forall|k: int| 0 <= k < i + 1 implies #[trigger] listed(order@, k) by {
                if k == i {
                    assert(order@[p as int] == k);
                } else {
                    assert(listed(before_insert, k));
                    let q = choose|q: int| 0 <= q < before_insert.len() && before_insert[q] == k;
                    if q < p {
                        assert(order@[q] == k);
                    } else {
                        assert(order@[q + 1] == k);
                    }
                }
            }
            assert forall|q: int, r: int|
                0 <= q < r < order@.len() implies comes_before(numbers@, #[trigger] order@[q] as int, #[trigger] order@[r] as int) by {
                if r < p {
                    assert(order@[q] == before_insert[q] && order@[r] == before_insert[r]);
                } else if r == p {
                    assert(order@[q] == before_insert[q]);
                } else if q < p {
                    assert(order@[q] == before_insert[q] && order@[r] == before_insert[r - 1]);
                    assert(comes_before(numbers@, before_insert[q] as int, before_insert[r - 1] as int));
                } else if q == p {
                    assert(order@[r] == before_insert[r - 1]);
                } else {
                    assert(order@[q] == before_insert[q - 1] && order@[r] == before_insert[r - 1]);
                    assert(comes_before(numbers@, before_insert[q - 1] as int, before_insert[r - 1] as int));
                }
            }
        }
        i = i + 1;
    }
    order
}

} // verus!
