//! The order of the stills.
//!
//! The transcoder numbers its stills in their names, and the names alone say
//! which frame comes first: they are sorted as byte strings. That is the order
//! of the numbers only while the numbers are padded to one width, so the
//! numbers are read back from the sorted names and must ascend.

use vstd::prelude::*;

verus! {

/// One still as it was read: the name of its file and the file's bytes.
#[derive(Clone, Debug, PartialEq, Eq)]
pub struct Still {
    pub name: Vec<u8>,
    pub data: Vec<u8>,
}

/// The names of the stills, each as a byte string.
pub open spec fn names_of(stills: Seq<Still>) -> Seq<Seq<u8>> {
    Seq::new(stills.len(), |i: int| stills[i].name@)
}

/// Lexicographic order of byte strings, looked at from position `i` on: `a`
/// comes before `b` if, where they first differ at or after `i`, `a` has the
/// smaller byte or has ended.
pub open spec fn lex_lt_from(a: Seq<u8>, b: Seq<u8>, i: int) -> bool
    decreases b.len() - i,
{
    if i < 0 || i >= b.len() {
        false
    } else if i >= a.len() {
        true
    } else if a[i] != b[i] {
        a[i] < b[i]
    } else {
        lex_lt_from(a, b, i + 1)
    }
}

/// Lexicographic order of byte strings.
pub open spec fn lex_lt(a: Seq<u8>, b: Seq<u8>) -> bool {
    lex_lt_from(a, b, 0)
}

/// The order in which stills are played: by name, and where two names are
/// the same, the one that was read first.
pub open spec fn plays_before(names: Seq<Seq<u8>>, x: int, y: int) -> bool {
    lex_lt(names[x], names[y]) || (names[x] == names[y] && x < y)
}

/// Whether `order` lists the stills in the order in which they are played:
/// every still, each before all that play after it.
pub open spec fn is_frame_order(names: Seq<Seq<u8>>, order: Seq<usize>) -> bool {
    &&& order.len() == names.len()
    &&& forall|k: int| 0 <= k < order.len() ==> (#[trigger] order[k]) < names.len()
    &&& forall|j: int, k: int|
        0 <= j < k < order.len() ==> plays_before(
            names,
            (#[trigger] order[j]) as int,
            (#[trigger] order[k]) as int,
        )
}

/// No byte string comes before itself.
pub proof fn lemma_lex_irreflexive(a: Seq<u8>, i: int)
    ensures
        !lex_lt_from(a, a, i),
    decreases a.len() - i,
{
    if 0 <= i < a.len() {
        lemma_lex_irreflexive(a, i + 1);
    }
}

/// If `a` comes before `b` and `b` before `c`, then `a` comes before `c`.
pub proof fn lemma_lex_transitive(a: Seq<u8>, b: Seq<u8>, c: Seq<u8>, i: int)
    requires
        lex_lt_from(a, b, i),
        lex_lt_from(b, c, i),
    ensures
        lex_lt_from(a, c, i),
    decreases b.len() - i,
{
    if i < a.len() && a[i] == b[i] && b[i] == c[i] {
        lemma_lex_transitive(a, b, c, i + 1);
    }
}

/// Of two byte strings that agree before position `i`, one comes before the
/// other or they are the same.
pub proof fn lemma_lex_total(a: Seq<u8>, b: Seq<u8>, i: int)
    requires
        0 <= i <= a.len(),
        i <= b.len(),
        forall|j: int| 0 <= j < i ==> a[j] == b[j],
    ensures
        lex_lt_from(a, b, i) || lex_lt_from(b, a, i) || a == b,
    decreases a.len() - i,
{
    if i < a.len() && i < b.len() {
        if a[i] == b[i] {
            lemma_lex_total(a, b, i + 1);
        }
    } else if i == a.len() && i == b.len() {
        assert(a =~= b);
    }
}

/// If `a` comes before `b`, then `b` does not come before `a`.
pub proof fn lemma_lex_asymmetric(a: Seq<u8>, b: Seq<u8>, i: int)
    requires
        lex_lt_from(a, b, i),
    ensures
        !lex_lt_from(b, a, i),
    decreases b.len() - i,
{
    if i < a.len() && i < b.len() && a[i] == b[i] {
        lemma_lex_asymmetric(a, b, i + 1);
    }
}

/// Tells whether one name comes before another in lexicographic order.
pub fn name_before(a: &Vec<u8>, b: &Vec<u8>) -> (r: bool)
    ensures
        r == lex_lt(a@, b@),
{
    let mut i: usize = 0;
    while i < a.len() && i < b.len()
        invariant
            i <= a.len(),
            i <= b.len(),
            lex_lt(a@, b@) == lex_lt_from(a@, b@, i as int),
        decreases a.len() - i,
    {
        if a[i] != b[i] {
            return a[i] < b[i];
        }
        i += 1;
    }
    i < b.len()
}

/// If one still plays before a second and the second before a third, the
/// first plays before the third.
pub proof fn lemma_plays_before_transitive(names: Seq<Seq<u8>>, x: int, y: int, z: int)
    requires
        plays_before(names, x, y),
        plays_before(names, y, z),
    ensures
        plays_before(names, x, z),
{
    if lex_lt(names[x], names[y]) && lex_lt(names[y], names[z]) {
        lemma_lex_transitive(names[x], names[y], names[z], 0);
    }
}

/// No still plays before itself, and of two stills at most one plays before
/// the other.
pub proof fn lemma_plays_before_asymmetric(names: Seq<Seq<u8>>, x: int, y: int)
    requires
        plays_before(names, x, y),
    ensures
        !plays_before(names, y, x),
        x != y,
{
    if lex_lt(names[x], names[y]) {
        lemma_lex_asymmetric(names[x], names[y], 0);
        lemma_lex_irreflexive(names[x], 0);
    } else {
        lemma_lex_irreflexive(names[x], 0);
    }
}

/// There is one order of play: two that both are it are the same.
pub proof fn lemma_frame_order_unique(names: Seq<Seq<u8>>, first: Seq<usize>, second: Seq<usize>)
    requires
        is_frame_order(names, first),
        is_frame_order(names, second),
    ensures
        first == second,
{
    lemma_order_prefix_agrees(names, first, second, names.len() as int);
    assert(first =~= second);
}

/// Whether an order lists still `x`.
pub open spec fn lists(order: Seq<usize>, x: int) -> bool {
    exists|j: int| 0 <= j < order.len() && #[trigger] order[j] == x
}

/// The stills listed by an order are all different.
pub proof fn lemma_order_injective(names: Seq<Seq<u8>>, order: Seq<usize>)
    requires
        is_frame_order(names, order),
    ensures
        forall|j: int, k: int|
            0 <= j < order.len() && 0 <= k < order.len() && j != k ==> #[trigger] order[j]
                != #[trigger] order[k],
{
    assert forall|j: int, k: int|
        0 <= j < order.len() && 0 <= k < order.len() && j != k implies #[trigger] order[j]
        != #[trigger] order[k] by {
        if j < k {
            lemma_plays_before_asymmetric(names, order[j] as int, order[k] as int);
        } else {
            lemma_plays_before_asymmetric(names, order[k] as int, order[j] as int);
        }
    }
}

/// An order of play lists every still.
pub proof fn lemma_order_lists_all(names: Seq<Seq<u8>>, order: Seq<usize>, x: int)
    requires
        is_frame_order(names, order),
        0 <= x < names.len(),
    ensures
        lists(order, x),
{
    lemma_order_injective(names, order);
    let listed = order.map_values(|v: usize| v as int);
    assert(listed.no_duplicates());
    let all = Set::new(|v: int| 0 <= v < names.len());
    vstd::set_lib::lemma_int_range(0, names.len() as int);
    assert(all =~= vstd::set_lib::set_int_range(0, names.len() as int));
    listed.unique_seq_to_set();
    assert(listed.to_set().subset_of(all)) by {
        assert forall|v: int| listed.to_set().contains(v) implies all.contains(v) by {
            let j = choose|j: int| 0 <= j < listed.len() && listed[j] == v;
            assert(order[j] < names.len());
        }
    }
    vstd::set_lib::lemma_subset_equality(listed.to_set(), all);
    assert(listed.to_set().contains(x));
    let j = choose|j: int| 0 <= j < listed.len() && listed[j] == x;
    assert(order[j] == x);
}

/// Two orders of play agree on their first `k` stills.
proof fn lemma_order_prefix_agrees(
    names: Seq<Seq<u8>>,
    first: Seq<usize>,
    second: Seq<usize>,
    k: int,
)
    requires
        is_frame_order(names, first),
        is_frame_order(names, second),
        0 <= k <= names.len(),
    ensures
        forall|j: int| 0 <= j < k ==> first[j] == second[j],
    decreases k,
{
    if k > 0 {
        lemma_order_prefix_agrees(names, first, second, k - 1);
        let at = k - 1;
        let x = first[at] as int;
        let y = second[at] as int;
        if x != y {
            lemma_order_injective(names, first);
            lemma_order_injective(names, second);
            // Each of the two stills stands later in the other order, so each
            // plays before the other.
            lemma_order_lists_all(names, second, x);
            let jx = choose|j: int| 0 <= j < second.len() && #[trigger] second[j] == x;
            lemma_order_lists_all(names, first, y);
            let jy = choose|j: int| 0 <= j < first.len() && #[trigger] first[j] == y;
            if jx < at {
                assert(first[jx] == second[jx]);
                assert(first[jx] == first[at]);
            }
            if jy < at {
                assert(second[jy] == first[jy]);
                assert(second[jy] == second[at]);
            }
            assert(plays_before(names, second[at] as int, second[jx] as int));
            assert(plays_before(names, first[at] as int, first[jy] as int));
            lemma_plays_before_asymmetric(names, x, y);
        }
    }
}

/// The order in which the stills are played: their positions in `stills`,
/// sorted by name, stills of one name in the order in which they were given.
pub fn frame_order(stills: &Vec<Still>) -> (order: Vec<usize>)
    ensures
        is_frame_order(names_of(stills@), order@),
{
    let n = stills.len();
    let ghost names = names_of(stills@);
    let mut order: Vec<usize> = Vec::new();
    let mut i: usize = 0;
    while i < n
        invariant
            n == stills.len(),
            names == names_of(stills@),
            i <= n,
            order.len() == i,
            forall|k: int| 0 <= k < i ==> (#[trigger] order@[k]) < i,
            forall|j: int, k: int|
                0 <= j < k < i ==> plays_before(
                    names,
                    (#[trigger] order@[j]) as int,
                    (#[trigger] order@[k]) as int,
                ),
        decreases n - i,
    {
        let mut at: usize = i;
        while at > 0 && name_before(&stills[i].name, &stills[order[at - 1]].name)
            invariant
                n == stills.len(),
                names == names_of(stills@),
                i < n,
                at <= i,
                order.len() == i,
                forall|k: int| 0 <= k < i ==> (#[trigger] order@[k]) < i,
                forall|k: int|
                    at <= k < i ==> lex_lt(names[i as int], names[(#[trigger] order@[k]) as int]),
            decreases at,
        {
            at -= 1;
        }
        proof {
            if at > 0 {
                let prev = order@[at - 1] as int;
                lemma_lex_total(names[prev], names[i as int], 0);
                assert(plays_before(names, prev, i as int));
                assert forall|k: int| 0 <= k < at implies plays_before(
                    names,
                    (#[trigger] order@[k]) as int,
                    i as int,
                ) by {
                    if k < at - 1 {
                        lemma_plays_before_transitive(names, order@[k] as int, prev, i as int);
                    }
                }
            }
        }
        let ghost before = order@;
        order.insert(at, i);
        assert forall|j: int, k: int| 0 <= j < k < i + 1 implies plays_before(
            names,
            (#[trigger] order@[j]) as int,
            (#[trigger] order@[k]) as int,
        ) by {
            if k < at {
                assert(order@[j] == before[j] && order@[k] == before[k]);
            } else if k == at {
                assert(order@[j] == before[j]);
            } else if j < at {
                assert(order@[j] == before[j] && order@[k] == before[k - 1]);
            } else if j == at {
                assert(order@[k] == before[k - 1]);
            } else {
                assert(order@[j] == before[j - 1] && order@[k] == before[k - 1]);
            }
        }
        assert forall|k: int| 0 <= k < i + 1 implies (#[trigger] order@[k]) < i + 1 by {
            if k < at {
                assert(order@[k] == before[k]);
            } else if k > at {
                assert(order@[k] == before[k - 1]);
            }
        }
        i += 1;
    }
    order
}

/// Whether a byte is an ASCII decimal digit.
pub open spec fn is_digit(b: u8) -> bool {
    0x30 <= b <= 0x39
}

/// The position of the last dot among the first `n` bytes of a name, or -1.
pub open spec fn last_dot_below(name: Seq<u8>, n: int) -> int
    decreases n,
{
    if n <= 0 {
        -1
    } else if name[n - 1] == 0x2e {
        n - 1
    } else {
        last_dot_below(name, n - 1)
    }
}

/// The length of a name's stem: the name without its extension, which begins
/// at the last dot.
pub open spec fn stem_len(name: Seq<u8>) -> int {
    let dot = last_dot_below(name, name.len() as int);
    if dot < 0 {
        name.len() as int
    } else {
        dot
    }
}

/// Where the run of digits that ends just before `end` begins.
pub open spec fn run_start(name: Seq<u8>, end: int) -> int
    decreases end,
{
    if end <= 0 || !is_digit(name[end - 1]) {
        end
    } else {
        run_start(name, end - 1)
    }
}

/// The number that a string of decimal digits writes.
pub open spec fn decimal(digits: Seq<u8>) -> nat
    decreases digits.len(),
{
    if digits.len() == 0 {
        0
    } else {
        (10 * decimal(digits.drop_last()) + (digits.last() - 0x30)) as nat
    }
}

/// The digits at the end of a name's stem.
pub open spec fn number_digits(name: Seq<u8>) -> Seq<u8> {
    name.subrange(run_start(name, stem_len(name)), stem_len(name))
}

/// The number of a still, read from its name: the one written by the digits
/// at the end of the stem. A name whose stem does not end in a digit has none.
pub open spec fn number_in(name: Seq<u8>) -> Option<nat> {
    if run_start(name, stem_len(name)) == stem_len(name) {
        None
    } else {
        Some(decimal(number_digits(name)))
    }
}

/// The run of digits lies in the name.
pub proof fn lemma_run_start_bounds(name: Seq<u8>, end: int)
    requires
        0 <= end <= name.len(),
    ensures
        0 <= run_start(name, end) <= end,
        forall|k: int| run_start(name, end) <= k < end ==> is_digit(#[trigger] name[k]),
    decreases end,
{
    if end > 0 && is_digit(name[end - 1]) {
        lemma_run_start_bounds(name, end - 1);
    }
}

/// A string of digits writes a number no smaller than any of its beginnings.
pub proof fn lemma_decimal_grows(digits: Seq<u8>, k: int)
    requires
        0 <= k <= digits.len(),
        forall|j: int| 0 <= j < digits.len() ==> is_digit(#[trigger] digits[j]),
    ensures
        decimal(digits.take(k)) <= decimal(digits),
    decreases digits.len(),
{
    if k == digits.len() {
        assert(digits.take(k) =~= digits);
    } else {
        let front = digits.drop_last();
        assert(front.take(k) =~= digits.take(k));
        lemma_decimal_grows(front, k);
    }
}

/// Reads the number of a still from its name. There is none where the stem
/// does not end in a digit, or where the number is too large for a `u64`.
pub fn frame_number(name: &Vec<u8>) -> (r: Option<u64>)
    ensures
        r == match number_in(name@) {
            Some(v) => if v <= u64::MAX {
                Some(v as u64)
            } else {
                None
            },
            None => None::<u64>,
        },
{
    let len = name.len();
    let mut dot: usize = len;
    while dot > 0 && name[dot - 1] != 0x2e
        invariant
            len == name.len(),
            dot <= len,
            last_dot_below(name@, len as int) == last_dot_below(name@, dot as int),
        decreases dot,
    {
        dot -= 1;
    }
    let end: usize = if dot == 0 {
        len
    } else {
        dot - 1
    };
    assert(end == stem_len(name@));
    let mut start: usize = end;
    while start > 0 && name[start - 1] >= 0x30 && name[start - 1] <= 0x39
        invariant
            end <= name.len(),
            start <= end,
            run_start(name@, end as int) == run_start(name@, start as int),
        decreases start,
    {
        start -= 1;
    }
    assert(start == run_start(name@, end as int));
    if start == end {
        return None;
    }
    let ghost digits = name@.subrange(start as int, end as int);
    proof {
        lemma_run_start_bounds(name@, end as int);
        assert(digits == number_digits(name@));
    }
    let mut value: u64 = 0;
    let mut k: usize = start;
    while k < end
        invariant
            start <= k <= end,
            end <= name.len(),
            digits == name@.subrange(start as int, end as int),
            forall|j: int| 0 <= j < digits.len() ==> is_digit(#[trigger] digits[j]),
            value == decimal(digits.take(k - start)),
            number_in(name@) == Some(decimal(digits)),
        decreases end - k,
    {
        proof {
            let upto = digits.take(k - start + 1);
            assert(digits[k - start] == name@[k as int]);
            assert(is_digit(digits[k - start]));
            assert(upto.drop_last() =~= digits.take(k - start));
            assert(upto.last() == name@[k as int]);
            assert(decimal(upto) == 10 * value + (name@[k as int] - 0x30));
            lemma_decimal_grows(digits, k - start + 1);
        }
        let digit: u64 = (name[k] - 0x30) as u64;
        let next = match value.checked_mul(10) {
            Some(tens) => tens.checked_add(digit),
            None => None,
        };
        match next {
            Some(v) => {
                value = v;
            },
            None => {
                return None;
            },
        }
        k += 1;
    }
    assert(digits.take(end - start) =~= digits);
    Some(value)
}

/// Whether the still played at place `k` carries a number that a `u64` holds
/// and, unless it is the first, a larger one than the still before it.
pub open spec fn well_numbered_at(names: Seq<Seq<u8>>, order: Seq<usize>, k: int) -> bool {
    match number_in(names[order[k] as int]) {
        Some(v) => v <= u64::MAX && (k > 0 ==> match number_in(names[order[k - 1] as int]) {
            Some(u) => u < v,
            None => false,
        }),
        None => false,
    }
}

/// Whether the numbers of the stills ascend in the order of play.
pub open spec fn numbers_ascend(names: Seq<Seq<u8>>, order: Seq<usize>) -> bool {
    forall|k: int| 0 <= k < order.len() ==> well_numbered_at(names, order, k)
}

/// The number of the still played at place `k`, or 0 where it has none.
pub open spec fn number_at(names: Seq<Seq<u8>>, order: Seq<usize>, k: int) -> nat {
    match number_in(names[order[k] as int]) {
        Some(v) => v,
        None => 0,
    }
}

/// Where the numbers ascend from each still to the next, every still has a
/// number, and a smaller one than every still played after it.
pub proof fn lemma_numbers_ascend_throughout(
    names: Seq<Seq<u8>>,
    order: Seq<usize>,
    j: int,
    k: int,
)
    requires
        numbers_ascend(names, order),
        0 <= j < k < order.len(),
    ensures
        number_in(names[order[j] as int]).is_some(),
        number_in(names[order[k] as int]).is_some(),
        number_at(names, order, j) < number_at(names, order, k),
    decreases k - j,
{
    assert(well_numbered_at(names, order, k));
    assert(well_numbered_at(names, order, k - 1));
    if j < k - 1 {
        lemma_numbers_ascend_throughout(names, order, j, k - 1);
    }
}

/// Checks that the numbers of the stills ascend in the order of play, and
/// tells the first place where they do not.
pub fn check_numbering(stills: &Vec<Still>, order: &Vec<usize>) -> (r: Result<(), usize>)
    requires
        forall|k: int| 0 <= k < order.len() ==> (#[trigger] order@[k]) < stills.len(),
    ensures
        match r {
            Ok(_) => numbers_ascend(names_of(stills@), order@),
            Err(k) => k < order.len() && !well_numbered_at(names_of(stills@), order@, k as int)
                && forall|j: int| 0 <= j < k ==> well_numbered_at(names_of(stills@), order@, j),
        },
{
    let ghost names = names_of(stills@);
    let mut previous: u64 = 0;
    let mut k: usize = 0;
    while k < order.len()
        invariant
            names == names_of(stills@),
            k <= order.len(),
            forall|j: int| 0 <= j < order.len() ==> (#[trigger] order@[j]) < stills.len(),
            forall|j: int| 0 <= j < k ==> well_numbered_at(names, order@, j),
            k > 0 ==> number_in(names[order@[k - 1] as int]) == Some(previous as nat),
        decreases order.len() - k,
    {
        match frame_number(&stills[order[k]].name) {
            Some(v) => {
                if k > 0 && v <= previous {
                    return Err(k);
                }
                previous = v;
            },
            None => {
                return Err(k);
            },
        }
        k += 1;
    }
    Ok(())
}

/// Whether every byte of a string is a decimal digit.
pub open spec fn all_digits(digits: Seq<u8>) -> bool {
    forall|k: int| 0 <= k < digits.len() ==> is_digit(#[trigger] digits[k])
}

/// Whether names can be made by writing a number between `prefix` and
/// `extension`: the prefix does not end in a digit, and the extension begins
/// with its only dot.
pub open spec fn is_pattern(prefix: Seq<u8>, extension: Seq<u8>) -> bool {
    &&& prefix.len() > 0 ==> !is_digit(prefix.last())
    &&& extension.len() > 0
    &&& extension[0] == 0x2e
    &&& forall|k: int| 1 <= k < extension.len() ==> #[trigger] extension[k] != 0x2e
}

proof fn lemma_last_dot_is(name: Seq<u8>, n: int, dot: int)
    requires
        0 <= dot < n <= name.len(),
        name[dot] == 0x2e,
        forall|k: int| dot < k < n ==> #[trigger] name[k] != 0x2e,
    ensures
        last_dot_below(name, n) == dot,
    decreases n,
{
    if n - 1 > dot {
        lemma_last_dot_is(name, n - 1, dot);
    }
}

proof fn lemma_run_start_is(name: Seq<u8>, end: int, start: int)
    requires
        0 <= start <= end <= name.len(),
        forall|k: int| start <= k < end ==> is_digit(#[trigger] name[k]),
        start > 0 ==> !is_digit(name[start - 1]),
    ensures
        run_start(name, end) == start,
    decreases end,
{
    if end > start {
        lemma_run_start_is(name, end - 1, start);
    }
}

/// A name made by writing digits between a prefix and an extension carries
/// the number that the digits write.
pub proof fn lemma_number_of_pattern(prefix: Seq<u8>, digits: Seq<u8>, extension: Seq<u8>)
    requires
        is_pattern(prefix, extension),
        all_digits(digits),
        digits.len() > 0,
    ensures
        number_in(prefix + digits + extension) == Some(decimal(digits)),
{
    let name = prefix + digits + extension;
    let start = prefix.len() as int;
    let end = start + digits.len();
    assert(name[end] == extension[0]);
    assert forall|k: int| end < k < name.len() implies #[trigger] name[k] != 0x2e by {
        assert(name[k] == extension[k - end]);
    }
    lemma_last_dot_is(name, name.len() as int, end);
    assert(stem_len(name) == end);
    assert forall|k: int| start <= k < end implies is_digit(#[trigger] name[k]) by {
        assert(name[k] == digits[k - start]);
    }
    if start > 0 {
        assert(name[start - 1] == prefix.last());
    }
    lemma_run_start_is(name, end, start);
    assert(name.subrange(start, end) =~= digits);
}

/// Two strings of one length that agree from `i` on: neither comes before the
/// other from there.
proof fn lemma_lex_same_rest(x: Seq<u8>, y: Seq<u8>, i: int)
    requires
        x.len() == y.len(),
        forall|k: int| i <= k < x.len() && 0 <= k ==> x[k] == y[k],
    ensures
        !lex_lt_from(x, y, i),
    decreases x.len() - i,
{
    if 0 <= i < x.len() {
        lemma_lex_same_rest(x, y, i + 1);
    }
}

/// Two strings that agree before `i` are ordered as they are from `i` on.
proof fn lemma_lex_skip_common(x: Seq<u8>, y: Seq<u8>, i: int, j: int)
    requires
        0 <= j <= i <= x.len(),
        i <= y.len(),
        forall|k: int| 0 <= k < i ==> x[k] == y[k],
    ensures
        lex_lt_from(x, y, j) == lex_lt_from(x, y, i),
    decreases i - j,
{
    if j < i {
        lemma_lex_skip_common(x, y, i, j + 1);
    }
}

/// Inside two names of one pattern the digits decide: from the place of
/// digit `i` on, the names are ordered as the digit strings are from `i` on.
proof fn lemma_lex_window(
    prefix: Seq<u8>,
    a: Seq<u8>,
    b: Seq<u8>,
    extension: Seq<u8>,
    i: int,
)
    requires
        a.len() == b.len(),
        0 <= i <= a.len(),
    ensures
        lex_lt_from(prefix + a + extension, prefix + b + extension, prefix.len() + i)
            == lex_lt_from(a, b, i),
    decreases a.len() - i,
{
    let x = prefix + a + extension;
    let y = prefix + b + extension;
    let at = prefix.len() + i;
    if i == a.len() {
        assert forall|k: int| at <= k < x.len() && 0 <= k implies x[k] == y[k] by {
            assert(x[k] == extension[k - at]);
            assert(y[k] == extension[k - at]);
        }
        lemma_lex_same_rest(x, y, at);
    } else {
        assert(x[at] == a[i]);
        assert(y[at] == b[i]);
        lemma_lex_window(prefix, a, b, extension, i + 1);
    }
}

/// Two strings of one length are ordered by their beginnings without the
/// last byte, and by the last byte where those are the same.
proof fn lemma_lex_by_last(a: Seq<u8>, b: Seq<u8>, i: int)
    requires
        a.len() == b.len(),
        a.len() > 0,
        0 <= i < a.len(),
    ensures
        lex_lt_from(a, b, i) == (lex_lt_from(a.drop_last(), b.drop_last(), i) || ((forall|k: int|
            i <= k < a.len() - 1 ==> a[k] == b[k]) && a.last() < b.last())),
    decreases a.len() - i,
{
    let al = a.drop_last();
    let bl = b.drop_last();
    let same_until_last = forall|k: int| i <= k < a.len() - 1 ==> a[k] == b[k];
    if i < a.len() - 1 {
        assert(al[i] == a[i] && bl[i] == b[i]);
        if a[i] == b[i] {
            lemma_lex_by_last(a, b, i + 1);
            assert(same_until_last == (forall|k: int| i + 1 <= k < a.len() - 1 ==> a[k] == b[k]));
        } else {
            assert(!same_until_last);
        }
    } else {
        assert(!lex_lt_from(a, b, i + 1));
        assert(!lex_lt_from(al, bl, i));
        assert(a.last() == a[i] && b.last() == b[i]);
    }
}

/// Of two digit strings of one width, the one that comes first writes the
/// smaller number, and only the same string writes the same number.
pub proof fn lemma_digits_order(a: Seq<u8>, b: Seq<u8>)
    requires
        a.len() == b.len(),
        all_digits(a),
        all_digits(b),
    ensures
        lex_lt(a, b) == (decimal(a) < decimal(b)),
        (a == b) == (decimal(a) == decimal(b)),
    decreases a.len(),
{
    if a.len() == 0 {
        assert(a =~= b);
    } else {
        let al = a.drop_last();
        let bl = b.drop_last();
        lemma_digits_order(al, bl);
        lemma_lex_by_last(a, b, 0);
        assert(is_digit(a.last()) && is_digit(b.last()));
        if al == bl {
            lemma_lex_irreflexive(al, 0);
            assert forall|k: int| 0 <= k < a.len() - 1 implies a[k] == b[k] by {
                assert(al[k] == a[k] && bl[k] == b[k]);
            }
            if a.last() == b.last() {
                assert(a =~= b);
            }
        } else {
            assert(exists|k: int| 0 <= k < a.len() - 1 && a[k] != b[k]) by {
                if forall|k: int| 0 <= k < a.len() - 1 ==> a[k] == b[k] {
                    assert(al =~= bl);
                }
            }
        }
    }
}

/// Names of one pattern whose numbers are padded to one width are ordered as
/// their numbers are.
pub proof fn lemma_padded_names_order(
    prefix: Seq<u8>,
    a: Seq<u8>,
    b: Seq<u8>,
    extension: Seq<u8>,
)
    requires
        a.len() == b.len(),
        all_digits(a),
        all_digits(b),
    ensures
        lex_lt(prefix + a + extension, prefix + b + extension) == (decimal(a) < decimal(b)),
        (prefix + a + extension == prefix + b + extension) == (decimal(a) == decimal(b)),
{
    let x = prefix + a + extension;
    let y = prefix + b + extension;
    assert forall|k: int| 0 <= k < prefix.len() implies x[k] == y[k] by {
        assert(x[k] == prefix[k] && y[k] == prefix[k]);
    }
    lemma_lex_skip_common(x, y, prefix.len() as int, 0);
    lemma_lex_window(prefix, a, b, extension, 0);
    lemma_digits_order(a, b);
    if x == y {
        assert(a =~= b) by {
            assert forall|k: int| 0 <= k < a.len() implies a[k] == b[k] by {
                assert(x[prefix.len() + k] == a[k]);
                assert(y[prefix.len() + k] == b[k]);
            }
        }
    }
}

/// Stills named after one pattern, with different numbers padded to one
/// width, are played in ascending order of their numbers; where the numbers
/// fit a `u64`, the check of the numbering passes.
pub proof fn lemma_padded_stills_play_in_numeric_order(
    names: Seq<Seq<u8>>,
    order: Seq<usize>,
    prefix: Seq<u8>,
    digits: Seq<Seq<u8>>,
    extension: Seq<u8>,
    width: nat,
)
    requires
        is_pattern(prefix, extension),
        width > 0,
        digits.len() == names.len(),
        forall|i: int|
            0 <= i < names.len() ==> (#[trigger] names[i]) == prefix + digits[i] + extension,
        forall|i: int|
            0 <= i < names.len() ==> (#[trigger] digits[i]).len() == width && all_digits(digits[i]),
        forall|i: int, j: int|
            0 <= i < j < names.len() ==> decimal(#[trigger] digits[i]) != decimal(
                #[trigger] digits[j],
            ),
        is_frame_order(names, order),
    ensures
        forall|k: int|
            0 <= k < order.len() ==> number_in(names[(#[trigger] order[k]) as int]) == Some(
                decimal(digits[order[k] as int]),
            ),
        forall|j: int, k: int|
            0 <= j < k < order.len() ==> decimal(digits[(#[trigger] order[j]) as int]) < decimal(
                digits[(#[trigger] order[k]) as int],
            ),
        (forall|i: int| 0 <= i < names.len() ==> decimal(#[trigger] digits[i]) <= u64::MAX)
            ==> numbers_ascend(names, order),
{
    assert forall|k: int| 0 <= k < order.len() implies number_in(
        names[(#[trigger] order[k]) as int],
    ) == Some(decimal(digits[order[k] as int])) by {
        let i = order[k] as int;
        assert(names[i] == prefix + digits[i] + extension);
        lemma_number_of_pattern(prefix, digits[i], extension);
    }
    assert forall|j: int, k: int| 0 <= j < k < order.len() implies decimal(
        digits[(#[trigger] order[j]) as int],
    ) < decimal(digits[(#[trigger] order[k]) as int]) by {
        let x = order[j] as int;
        let y = order[k] as int;
        assert(plays_before(names, x, y));
        lemma_plays_before_asymmetric(names, x, y);
        assert(names[x] == prefix + digits[x] + extension);
        assert(names[y] == prefix + digits[y] + extension);
        lemma_padded_names_order(prefix, digits[x], digits[y], extension);
        if x < y {
            assert(decimal(digits[x]) != decimal(digits[y]));
        } else {
            assert(decimal(digits[y]) != decimal(digits[x]));
        }
    }
    if forall|i: int| 0 <= i < names.len() ==> decimal(#[trigger] digits[i]) <= u64::MAX {
        assert forall|k: int| 0 <= k < order.len() implies well_numbered_at(names, order, k) by {
            assert(decimal(digits[order[k] as int]) <= u64::MAX);
            if k > 0 {
                assert(decimal(digits[order[k - 1] as int]) < decimal(digits[order[k] as int]));
            }
        }
    }
}

/// Whether `order` lists stills below `bound`, each before all that play
/// after it.
spec fn plays_in_order(names: Seq<Seq<u8>>, order: Seq<usize>, bound: int) -> bool {
    &&& forall|k: int| 0 <= k < order.len() ==> (#[trigger] order[k]) < bound
    &&& forall|j: int, k: int|
        0 <= j < k < order.len() ==> plays_before(
            names,
            (#[trigger] order[j]) as int,
            (#[trigger] order[k]) as int,
        )
}

/// An order with still `x` put where it plays.
spec fn with_still(names: Seq<Seq<u8>>, order: Seq<usize>, x: usize) -> Seq<usize>
    decreases order.len(),
{
    if order.len() > 0 && lex_lt(names[x as int], names[order.last() as int]) {
        with_still(names, order.drop_last(), x).push(order.last())
    } else {
        order.push(x)
    }
}

proof fn lemma_with_still(names: Seq<Seq<u8>>, order: Seq<usize>, x: usize)
    requires
        plays_in_order(names, order, x as int),
    ensures
        plays_in_order(names, with_still(names, order, x), x + 1),
        with_still(names, order, x).len() == order.len() + 1,
        forall|k: int|
            0 <= k < order.len() + 1 ==> (#[trigger] with_still(names, order, x)[k]) == x || exists|
                j: int,
            | 0 <= j < order.len() && order[j] == with_still(names, order, x)[k],
    decreases order.len(),
{
    let put = with_still(names, order, x);
    if order.len() > 0 && lex_lt(names[x as int], names[order.last() as int]) {
        let front = order.drop_last();
        let last = order.last();
        let inner = with_still(names, front, x);
        assert(plays_in_order(names, front, x as int)) by {
            assert forall|k: int| 0 <= k < front.len() implies (#[trigger] front[k]) < x by {
                assert(front[k] == order[k]);
            }
            assert forall|j: int, k: int| 0 <= j < k < front.len() implies plays_before(
                names,
                (#[trigger] front[j]) as int,
                (#[trigger] front[k]) as int,
            ) by {
                assert(front[j] == order[j] && front[k] == order[k]);
            }
        }
        lemma_with_still(names, front, x);
        assert(put == inner.push(last));
        assert forall|k: int| 0 <= k < order.len() + 1 implies (#[trigger] put[k]) == x || exists|
            j: int,
        | 0 <= j < order.len() && order[j] == put[k] by {
            if k < order.len() {
                assert(put[k] == inner[k]);
                if inner[k] != x {
                    let j = choose|j: int| 0 <= j < front.len() && front[j] == inner[k];
                    assert(order[j] == put[k]);
                }
            } else {
                assert(order[order.len() - 1] == put[k]);
            }
        }
        assert forall|j: int, k: int| 0 <= j < k < put.len() implies plays_before(
            names,
            (#[trigger] put[j]) as int,
            (#[trigger] put[k]) as int,
        ) by {
            assert(put[j] == inner[j]);
            if k < put.len() - 1 {
                assert(put[k] == inner[k]);
            } else {
                assert(put[k] == last);
                if inner[j] != x {
                    let i = choose|i: int| 0 <= i < front.len() && front[i] == inner[j];
                    assert(order[i] == inner[j]);
                    assert(plays_before(names, order[i] as int, order[order.len() - 1] as int));
                }
            }
        }
        assert forall|k: int| 0 <= k < put.len() implies (#[trigger] put[k]) < x + 1 by {
            if k < put.len() - 1 {
                assert(put[k] == inner[k]);
            } else {
                assert(put[k] == order[order.len() - 1]);
            }
        }
    } else {
        assert(put == order.push(x));
        assert forall|j: int, k: int| 0 <= j < k < put.len() implies plays_before(
            names,
            (#[trigger] put[j]) as int,
            (#[trigger] put[k]) as int,
        ) by {
            assert(put[j] == order[j]);
            if k < order.len() {
                assert(put[k] == order[k]);
            } else {
                let last = order.last();
                assert(order[order.len() - 1] == last);
                lemma_lex_total(names[last as int], names[x as int], 0);
                assert(plays_before(names, last as int, x as int));
                if j < order.len() - 1 {
                    lemma_plays_before_transitive(names, order[j] as int, last as int, x as int);
                }
            }
        }
        assert forall|k: int| 0 <= k < order.len() + 1 implies (#[trigger] put[k]) == x || exists|
            j: int,
        | 0 <= j < order.len() && order[j] == put[k] by {
            if k < order.len() {
                assert(order[k] == put[k]);
            }
        }
    }
}

proof fn lemma_order_of_first(names: Seq<Seq<u8>>, n: nat)
    requires
        n <= names.len(),
        n <= usize::MAX,
    ensures
        exists|order: Seq<usize>| order.len() == n && plays_in_order(names, order, n as int),
    decreases n,
{
    if n == 0 {
        let none = Seq::<usize>::empty();
        assert(none.len() == n && plays_in_order(names, none, n as int));
    } else {
        lemma_order_of_first(names, (n - 1) as nat);
        let front = choose|order: Seq<usize>|
            order.len() == (n - 1) as nat && plays_in_order(names, order, (n - 1) as nat as int);
        lemma_with_still(names, front, (n - 1) as usize);
        let all = with_still(names, front, (n - 1) as usize);
        assert(all.len() == n && plays_in_order(names, all, n as int));
    }
}

/// Stills can be put in the order of play, if there are no more of them than
/// can be counted.
pub proof fn lemma_frame_order_exists(names: Seq<Seq<u8>>)
    requires
        names.len() <= usize::MAX,
    ensures
        exists|order: Seq<usize>| is_frame_order(names, order),
{
    lemma_order_of_first(names, names.len());
    let order = choose|order: Seq<usize>|
        order.len() == names.len() && plays_in_order(names, order, names.len() as int);
    assert(is_frame_order(names, order));
}

} // verus!
