//! Page lists that respect every page ordering rule, and their middle pages.
use crate::day03_part1::{is_digit, number_end, value, NINE, ZERO};
use crate::text::{u128_to_string, decimal};
use vstd::prelude::*;
use vstd::string::StringSliceAdditionalSpecFns;

verus! {

pub const NEWLINE: u8 = 10;
pub const PIPE: u8 = 124;
pub const COMMA: u8 = 44;

/// Page `a` must come before page `b`.
#[derive(Clone, Copy, PartialEq, Eq, Debug, Structural)]
pub struct PageOrderingRule {
    pub a: u32,
    pub b: u32,
}

/// A run of digits at `s` whose value fits a `u32`: the value and where the
/// run ends.
pub open spec fn num_at(t: Seq<u8>, s: int) -> Option<(u32, int)> {
    let e = number_end(t, s);
    if 0 <= s < e && value(t, s, e - s) <= u32::MAX {
        Some((value(t, s, e - s) as u32, e))
    } else {
        None
    }
}

/// A rule `a|b` at `i`, and where it ends.
pub open spec fn rule_at(t: Seq<u8>, i: int) -> Option<(PageOrderingRule, int)> {
    match num_at(t, i) {
        Some((a, e)) => if e < t.len() && t[e] == PIPE {
            match num_at(t, e + 1) {
                Some((b, e2)) => Some((PageOrderingRule { a, b }, e2)),
                None => None,
            }
        } else {
            None
        },
        None => None,
    }
}

/// The rules that follow at `i`, each after a line break, as many as parse
/// in a row (at most `fuel`), and where the last one ends.
pub open spec fn more_rules(t: Seq<u8>, i: int, fuel: nat) -> (Seq<PageOrderingRule>, int)
    decreases fuel,
{
    if fuel > 0 && 0 <= i < t.len() && t[i] == NEWLINE && rule_at(t, i + 1) is Some {
        let (r, e) = rule_at(t, i + 1).unwrap();
        let (rs, end) = more_rules(t, e, (fuel - 1) as nat);
        (seq![r] + rs, end)
    } else {
        (seq![], i)
    }
}

/// The numbers that follow at `i`, each after a comma, as many as parse in a
/// row (at most `fuel`), and where the last one ends.
pub open spec fn more_pages(t: Seq<u8>, i: int, fuel: nat) -> (Seq<u32>, int)
    decreases fuel,
{
    if fuel > 0 && 0 <= i < t.len() && t[i] == COMMA && num_at(t, i + 1) is Some {
        let (p, e) = num_at(t, i + 1).unwrap();
        let (ps, end) = more_pages(t, e, (fuel - 1) as nat);
        (seq![p] + ps, end)
    } else {
        (seq![], i)
    }
}

/// A page list `p,q,...` at `i`, and where it ends.
pub open spec fn list_at(t: Seq<u8>, i: int) -> Option<(Seq<u32>, int)> {
    match num_at(t, i) {
        Some((p, e)) => {
            let (ps, end) = more_pages(t, e, t.len());
            Some((seq![p] + ps, end))
        },
        None => None,
    }
}

/// The page lists that follow at `i`, each after a line break, as many as
/// parse in a row (at most `fuel`).
pub open spec fn more_lists(t: Seq<u8>, i: int, fuel: nat) -> Seq<Seq<u32>>
    decreases fuel,
{
    if fuel > 0 && 0 <= i < t.len() && t[i] == NEWLINE && list_at(t, i + 1) is Some {
        let (l, e) = list_at(t, i + 1).unwrap();
        seq![l] + more_lists(t, e, (fuel - 1) as nat)
    } else {
        seq![]
    }
}

/// The rules and the page lists of a text: one or more rules, one per line,
/// an empty line, then one or more page lists, one per line; what follows
/// the last list that parses is ignored.
pub open spec fn parse_spec(t: Seq<u8>) -> Option<(Seq<PageOrderingRule>, Seq<Seq<u32>>)> {
    match rule_at(t, 0) {
        Some((r, e)) => {
            let (rs, end) = more_rules(t, e, t.len());
            if end + 2 <= t.len() && t[end] == NEWLINE && t[end + 1] == NEWLINE {
                match list_at(t, end + 2) {
                    Some((l, e2)) => Some((seq![r] + rs, seq![l] + more_lists(t, e2, t.len()))),
                    None => None,
                }
            } else {
                None
            }
        },
        None => None,
    }
}

proof fn lemma_value_grows(t: Seq<u8>, s: int, n: int)
    requires
        0 <= n,
    ensures
        value(t, s, n) <= value(t, s, n + 1),
{
}

/// A run of digits at `s` whose value fits a `u32`, as `num_at` gives it.
fn u32(t: &[u8], s: usize) -> (r: Option<(u32, usize)>)
    requires
        s <= t.len(),
    ensures
        r is Some <==> num_at(t@, s as int) is Some,
        r is Some ==> r.unwrap().0 == num_at(t@, s as int).unwrap().0 && r.unwrap().1 as int == num_at(
            t@,
            s as int,
        ).unwrap().1,
        r is Some ==> s < r.unwrap().1 <= t.len(),
{
    let mut e: usize = s;
    let mut v: u64 = 0;
    let mut big = false;
    while e < t.len() && ZERO <= t[e] && t[e] <= NINE
        invariant
            s <= e <= t.len(),
            number_end(t@, s as int) == number_end(t@, e as int),
            !big ==> v as nat == value(t@, s as int, e - s) && v <= u32::MAX,
            big ==> value(t@, s as int, e - s) > u32::MAX,
        decreases t.len() - e,
    {
        proof {
            lemma_value_grows(t@, s as int, e - s);
        }
        if !big {
            let next = v * 10 + (t[e] - ZERO) as u64;
            if next > 0xffff_ffff {
                big = true;
            } else {
                v = next;
            }
        }
        e = e + 1;
    }
    if e == s || big {
        return None;
    }
    Some((v as u32, e))
}

/// The rule `a|b` at `i`, as `rule_at` gives it.
fn parse_rule(t: &[u8], i: usize) -> (r: Option<(PageOrderingRule, usize)>)
    requires
        i <= t.len(),
    ensures
        r is Some <==> rule_at(t@, i as int) is Some,
        r is Some ==> r.unwrap().0 == rule_at(t@, i as int).unwrap().0 && r.unwrap().1 as int == rule_at(
            t@,
            i as int,
        ).unwrap().1,
        r is Some ==> i < r.unwrap().1 <= t.len(),
{
    let (a, e) = match u32(t, i) {
        Some(p) => p,
        None => return None,
    };
    if e >= t.len() || t[e] != PIPE {
        return None;
    }
    match u32(t, e + 1) {
        Some((b, e2)) => Some((PageOrderingRule { a, b }, e2)),
        None => None,
    }
}

/// The page list at `i`, as `list_at` gives it.
fn parse_list(t: &[u8], i: usize) -> (r: Option<(Vec<u32>, usize)>)
    requires
        i <= t.len(),
    ensures
        r is Some <==> list_at(t@, i as int) is Some,
        r is Some ==> r.unwrap().0@ == list_at(t@, i as int).unwrap().0 && r.unwrap().1 as int == list_at(
            t@,
            i as int,
        ).unwrap().1,
        r is Some ==> i < r.unwrap().1 <= t.len(),
{
    let (p, start) = match u32(t, i) {
        Some(x) => x,
        None => return None,
    };
    let ghost f = t@.len();
    let mut pages: Vec<u32> = Vec::new();
    pages.push(p);
    let mut pos = start;
    let ghost mut k: nat = 0;
    loop
        invariant
            f == t@.len(),
            start <= pos <= t.len(),
            k <= pos - start,
            pages@.len() >= 1,
            pages@[0] == p,
            more_pages(t@, start as int, f) == (pages@.skip(1) + more_pages(t@, pos as int, (f - k) as nat).0, more_pages(
                t@,
                pos as int,
                (f - k) as nat,
            ).1),
        ensures
            start <= pos <= t.len(),
            pages@.len() >= 1,
            pages@[0] == p,
            more_pages(t@, start as int, f) == (pages@.skip(1), pos as int),
        decreases t.len() - pos,
    {
        if pos >= t.len() || t[pos] != COMMA {
            assert(more_pages(t@, pos as int, (f - k) as nat).0 =~= seq![]);
            assert(pages@.skip(1) + seq![] =~= pages@.skip(1));
            break;
        }
        match u32(t, pos + 1) {
            Some((q, e)) => {
                let ghost before = pages@;
                pages.push(q);
                assert(pages@.skip(1) =~= before.skip(1) + seq![q]);
                assert(more_pages(t@, pos as int, (f - k) as nat).0 =~= seq![q] + more_pages(
                    t@,
                    e as int,
                    (f - k - 1) as nat,
                ).0);
                proof {
                    k = k + 1;
                }
                pos = e;
                assert(before.skip(1) + (seq![q] + more_pages(t@, pos as int, (f - k) as nat).0) =~= pages@.skip(1)
                    + more_pages(t@, pos as int, (f - k) as nat).0);
            },
            None => {
                assert(more_pages(t@, pos as int, (f - k) as nat).0 =~= seq![]);
                assert(pages@.skip(1) + seq![] =~= pages@.skip(1));
                break;
            },
        }
    }
    assert(pages@ =~= seq![p] + pages@.skip(1));
    Some((pages, pos))
}

/// The rules and page lists of a text, as `parse_spec` gives them.
pub fn parse_input(input: &str) -> (r: Option<(Vec<PageOrderingRule>, Vec<Vec<u32>>)>)
    ensures
        r is Some <==> parse_spec(input.spec_bytes()) is Some,
        r is Some ==> r.unwrap().0@ == parse_spec(input.spec_bytes()).unwrap().0 && r.unwrap().1@.map_values(
            |l: Vec<u32>| l@,
        ) == parse_spec(input.spec_bytes()).unwrap().1,
{
    let t = input.as_bytes();
    let ghost f = t@.len();
    let (r0, start) = match parse_rule(t, 0) {
        Some(x) => x,
        None => return None,
    };
    let mut rules: Vec<PageOrderingRule> = Vec::new();
    rules.push(r0);
    let mut pos = start;
    let ghost mut k: nat = 0;
    loop
        invariant
            f == t@.len(),
            start <= pos <= t.len(),
            k <= pos - start,
            rules@.len() >= 1,
            rules@[0] == r0,
            more_rules(t@, start as int, f) == (rules@.skip(1) + more_rules(t@, pos as int, (f - k) as nat).0, more_rules(
                t@,
                pos as int,
                (f - k) as nat,
            ).1),
        ensures
            start <= pos <= t.len(),
            rules@.len() >= 1,
            rules@[0] == r0,
            more_rules(t@, start as int, f) == (rules@.skip(1), pos as int),
        decreases t.len() - pos,
    {
        if pos >= t.len() || t[pos] != NEWLINE {
            assert(more_rules(t@, pos as int, (f - k) as nat).0 =~= seq![]);
            assert(rules@.skip(1) + seq![] =~= rules@.skip(1));
            break;
        }
        match parse_rule(t, pos + 1) {
            Some((q, e)) => {
                let ghost before = rules@;
                rules.push(q);
                assert(rules@.skip(1) =~= before.skip(1) + seq![q]);
                assert(more_rules(t@, pos as int, (f - k) as nat).0 =~= seq![q] + more_rules(
                    t@,
                    e as int,
                    (f - k - 1) as nat,
                ).0);
                proof {
                    k = k + 1;
                }
                pos = e;
                assert(before.skip(1) + (seq![q] + more_rules(t@, pos as int, (f - k) as nat).0) =~= rules@.skip(1)
                    + more_rules(t@, pos as int, (f - k) as nat).0);
            },
            None => {
                assert(more_rules(t@, pos as int, (f - k) as nat).0 =~= seq![]);
                assert(rules@.skip(1) + seq![] =~= rules@.skip(1));
                break;
            },
        }
    }
    assert(rules@ =~= seq![r0] + rules@.skip(1));
    if pos >= t.len() || t.len() - pos < 2 || t[pos] != NEWLINE || t[pos + 1] != NEWLINE {
        return None;
    }
    let (l0, lstart) = match parse_list(t, pos + 2) {
        Some(x) => x,
        None => return None,
    };
    let ghost l0v = l0@;
    let mut lists: Vec<Vec<u32>> = Vec::new();
    lists.push(l0);
    let mut lpos = lstart;
    let ghost mut m: nat = 0;
    loop
        invariant
            f == t@.len(),
            lstart <= lpos <= t.len(),
            m <= lpos - lstart,
            lists@.len() >= 1,
            lists@[0]@ == l0v,
            more_lists(t@, lstart as int, f) == lists@.skip(1).map_values(|l: Vec<u32>| l@) + more_lists(
                t@,
                lpos as int,
                (f - m) as nat,
            ),
        ensures
            lists@.len() >= 1,
            lists@[0]@ == l0v,
            more_lists(t@, lstart as int, f) == lists@.skip(1).map_values(|l: Vec<u32>| l@),
        decreases t.len() - lpos,
    {
        if lpos >= t.len() || t[lpos] != NEWLINE {
            assert(more_lists(t@, lpos as int, (f - m) as nat) =~= seq![]);
            assert(lists@.skip(1).map_values(|l: Vec<u32>| l@) + seq![] =~= lists@.skip(1).map_values(
                |l: Vec<u32>| l@,
            ));
            break;
        }
        match parse_list(t, lpos + 1) {
            Some((q, e)) => {
                let ghost before = lists@;
                let ghost qv = q@;
                lists.push(q);
                assert(lists@.skip(1).map_values(|l: Vec<u32>| l@) =~= before.skip(1).map_values(|l: Vec<u32>| l@)
                    + seq![qv]);
                assert(more_lists(t@, lpos as int, (f - m) as nat) =~= seq![qv] + more_lists(
                    t@,
                    e as int,
                    (f - m - 1) as nat,
                ));
                proof {
                    m = m + 1;
                }
                lpos = e;
                assert(before.skip(1).map_values(|l: Vec<u32>| l@) + (seq![qv] + more_lists(
                    t@,
                    lpos as int,
                    (f - m) as nat,
                )) =~= lists@.skip(1).map_values(|l: Vec<u32>| l@) + more_lists(t@, lpos as int, (f - m) as nat));
            },
            None => {
                assert(more_lists(t@, lpos as int, (f - m) as nat) =~= seq![]);
                assert(lists@.skip(1).map_values(|l: Vec<u32>| l@) + seq![] =~= lists@.skip(1).map_values(
                    |l: Vec<u32>| l@,
                ));
                break;
            },
        }
    }
    assert(lists@.map_values(|l: Vec<u32>| l@) =~= seq![l0v] + lists@.skip(1).map_values(|l: Vec<u32>| l@));
    Some((rules, lists))
}

/// Rule `k` asks for the page at `i` to come after the page at `j`.
pub open spec fn breaks(rules: Seq<PageOrderingRule>, list: Seq<u32>, i: int, j: int, k: int) -> bool {
    rules[k].a == list[j] && rules[k].b == list[i]
}

/// No rule puts a page after one that follows it (or after itself).
pub open spec fn ordered(rules: Seq<PageOrderingRule>, list: Seq<u32>) -> bool {
    forall|i: int, j: int, k: int|
        0 <= i <= j < list.len() && 0 <= k < rules.len() ==> !#[trigger] breaks(rules, list, i, j, k)
}

/// Whether the list respects every rule.
pub fn correctly_ordered(rules: &[PageOrderingRule], list: &[u32]) -> (r: bool)
    ensures
        r == ordered(rules@, list@),
{
    let mut i: usize = 0;
    while i < list.len()
        invariant
            i <= list.len(),
            forall|a: int, b: int, k: int|
                0 <= a < i && a <= b < list.len() && 0 <= k < rules.len() ==> !#[trigger] breaks(
                    rules@,
                    list@,
                    a,
                    b,
                    k,
                ),
        decreases list.len() - i,
    {
        let mut j: usize = i;
        while j < list.len()
            invariant
                i < list.len(),
                i <= j <= list.len(),
                forall|a: int, b: int, k: int|
                    0 <= a < i && a <= b < list.len() && 0 <= k < rules.len() ==> !#[trigger] breaks(
                        rules@,
                        list@,
                        a,
                        b,
                        k,
                    ),
                forall|b: int, k: int|
                    i <= b < j && 0 <= k < rules.len() ==> !#[trigger] breaks(rules@, list@, i as int, b, k),
            decreases list.len() - j,
        {
            let mut k: usize = 0;
            while k < rules.len()
                invariant
                    i < list.len(),
                    i <= j < list.len(),
                    forall|a: int, b: int, q: int|
                        0 <= a < i && a <= b < list.len() && 0 <= q < rules.len() ==> !#[trigger] breaks(
                            rules@,
                            list@,
                            a,
                            b,
                            q,
                        ),
                    forall|b: int, q: int|
                        i <= b < j && 0 <= q < rules.len() ==> !#[trigger] breaks(rules@, list@, i as int, b, q),
                    k <= rules.len(),
                    forall|q: int| 0 <= q < k ==> !#[trigger] breaks(rules@, list@, i as int, j as int, q),
                decreases rules.len() - k,
            {
                if rules[k].a == list[j] && rules[k].b == list[i] {
                    assert(breaks(rules@, list@, i as int, j as int, k as int));
                    return false;
                }
                k = k + 1;
            }
            j = j + 1;
        }
        i = i + 1;
    }
    true
}

/// The sum of the middle pages of the ordered lists among the first `n`.
pub open spec fn middle_sum(rules: Seq<PageOrderingRule>, lists: Seq<Seq<u32>>, n: int) -> nat
    decreases n,
{
    if n <= 0 {
        0
    } else {
        middle_sum(rules, lists, n - 1) + if ordered(rules, lists[n - 1]) && lists[n - 1].len() > 0 {
            lists[n - 1][lists[n - 1].len() as int / 2] as nat
        } else {
            0nat
        }
    }
}

/// Why a text holds no rules and page lists.
#[derive(Clone, Copy, PartialEq, Eq, Debug, Structural)]
pub enum ParseError {
    /// The text is not one or more rules, an empty line, and one or more
    /// page lists.
    Malformed,
}

/// The sum of the middle pages of the correctly ordered lists, in decimal.
pub fn process(input: &str) -> (r: Result<String, ParseError>)
    ensures
        r is Ok <==> parse_spec(input.spec_bytes()) is Some,
        r is Ok ==> r.unwrap()@ == decimal(
            middle_sum(
                parse_spec(input.spec_bytes()).unwrap().0,
                parse_spec(input.spec_bytes()).unwrap().1,
                parse_spec(input.spec_bytes()).unwrap().1.len() as int,
            ),
        ),
{
    let (rules, lists) = match parse_input(input) {
        Some(p) => p,
        None => return Err(ParseError::Malformed),
    };
    let ghost lv = lists@.map_values(|l: Vec<u32>| l@);
    let mut result: u128 = 0;
    let mut i: usize = 0;
    while i < lists.len()
        invariant
            lv == lists@.map_values(|l: Vec<u32>| l@),
            i <= lists.len(),
            result as nat == middle_sum(rules@, lv, i as int),
            result <= i as nat * 0x1_0000_0000,
        decreases lists.len() - i,
    {
        let list = &lists[i];
        assert(lv[i as int] == list@);
        if list.len() > 0 && correctly_ordered(rules.as_slice(), list.as_slice()) {
            result = result + list[list.len() / 2] as u128;
        }
        i = i + 1;
    }
    Ok(u128_to_string(result))
}

} // verus!
