//! User rules for organizing: which files go into which folder.
use vstd::prelude::*;
use crate::clock::{calendar_date, now, utc_date};
use crate::model::{age_in_days, days_between, entry_ext, FileEntry, Timestamp};
use crate::pattern::{check_regex, regex_error, regex_is_match, regex_matches};
use crate::text::{
    chars_of, lowercase, replace_all, replaced, signed_decimal, signed_decimal_chars, string_of,
    to_lowercase, vec_of, zero_padded, zero_padded_chars,
};

verus! {

/// Rules, tried in order; the first that matches decides.
#[derive(Debug)]
pub struct RuleSet {
    pub rules: Vec<Rule>,
}

/// Files the matcher accepts go into the folder `into`, where `{year}`,
/// `{month}` and `{ext}` are filled in from the file.
#[derive(Debug)]
pub struct Rule {
    pub matcher: Matcher,
    pub into: String,
}

/// Conditions a file must meet, all of those that are given.
#[derive(Debug)]
pub struct Matcher {
    pub extensions: Vec<String>,
    pub older_than_days: Option<i64>,
    pub larger_than_bytes: Option<u64>,
    pub name_regex: Option<String>,
}

/// Whether `m` accepts `e` at time `now`: its extension is one of the listed
/// ones (compared in lower case; any when none are listed), it is at least
/// `older_than_days` old, at least `larger_than_bytes` large, and its name
/// matches `name_regex` (a pattern that does not compile matches nothing).
pub open spec fn accepts(m: Matcher, e: FileEntry, now: Timestamp) -> bool {
    &&& (m.extensions.len() == 0 || exists|i: int|
        0 <= i < m.extensions.len() && lowercase((#[trigger] m.extensions[i])@) == entry_ext(e))
    &&& (m.older_than_days matches Some(d) ==> days_between(now, e.modified) >= d)
    &&& (m.larger_than_bytes matches Some(min) ==> e.size >= min)
    &&& (m.name_regex matches Some(p) ==> regex_error(p@) is None && regex_matches(p@, e.name@))
}

/// The year of the moment `t`, in the UTC calendar.
pub open spec fn year_of(t: Timestamp) -> int {
    utc_date(t.secs as int).0
}

/// The month (`1..=12`) of the moment `t`, in the UTC calendar.
pub open spec fn month_of(t: Timestamp) -> int {
    utc_date(t.secs as int).1
}

/// `template` with `{year}`, `{month}` (two digits) and `{ext}` (`none` when
/// the file has none) filled in from `e`, in that order.
pub open spec fn expanded(template: Seq<char>, e: FileEntry) -> Seq<char> {
    let ext = match e.extension {
        Some(x) => x@,
        None => "none"@,
    };
    replaced(
        replaced(
            replaced(template, "{year}"@, signed_decimal(year_of(e.modified))),
            "{month}"@,
            zero_padded(month_of(e.modified) as nat, 2),
        ),
        "{ext}"@,
        ext,
    )
}

/// The index of the first of `rules` from `i` on that accepts `e`, if any.
pub open spec fn first_rule(rules: Seq<Rule>, e: FileEntry, now: Timestamp, i: int) -> Option<int>
    decreases rules.len() - i,
{
    if i < 0 || i >= rules.len() {
        None
    } else if accepts(rules[i].matcher, e, now) {
        Some(i)
    } else {
        first_rule(rules, e, now, i + 1)
    }
}

/// Where the rules send `e` at time `now`.
pub open spec fn rule_destination(rules: Seq<Rule>, e: FileEntry, now: Timestamp) -> Option<
    Seq<char>,
> {
    match first_rule(rules, e, now, 0) {
        Some(i) => Some(expanded(rules[i].into@, e)),
        None => None,
    }
}

/// Whether some of `list`, lower-cased, is `s`.
fn lowered_has(list: &Vec<String>, s: &String) -> (r: bool)
    ensures
        r == exists|i: int| 0 <= i < list.len() && lowercase((#[trigger] list[i])@) == s@,
{
    let mut i: usize = 0;
    while i < list.len()
        invariant
            i <= list.len(),
            forall|k: int| 0 <= k < i ==> lowercase((#[trigger] list[k])@) != s@,
        decreases list.len() - i,
    {
        let low = to_lowercase(list[i].as_str());
        if String::eq(&low, s) {
            return true;
        }
        i = i + 1;
    }
    false
}

impl Matcher {
    /// Whether the matcher accepts `entry` at time `now`.
    pub fn matches_at(&self, entry: &FileEntry, now: &Timestamp) -> (r: bool)
        requires
            now.valid(),
            entry.modified.valid(),
        ensures
            r == accepts(*self, *entry, *now),
    {
        if self.extensions.len() > 0 {
            let ext: String = match &entry.extension {
                Some(x) => x.clone(),
                None => String::new(),
            };
            assert(ext@ == entry_ext(*entry));
            if !lowered_has(&self.extensions, &ext) {
                return false;
            }
        }
        match self.older_than_days {
            Some(days) => {
                let age = age_in_days(now, &entry.modified);
                if age < days {
                    return false;
                }
            },
            None => {},
        }
        match self.larger_than_bytes {
            Some(min) => {
                if entry.size < min {
                    return false;
                }
            },
            None => {},
        }
        match &self.name_regex {
            Some(pattern) => {
                match check_regex(pattern.as_str()) {
                    Ok(()) => {
                        if !regex_is_match(pattern.as_str(), entry.name.as_str()) {
                            return false;
                        }
                    },
                    Err(_) => {
                        return false;
                    },
                }
            },
            None => {},
        }
        true
    }

    /// Whether the matcher accepts `entry` now (by the clock).
    pub fn matches(&self, entry: &FileEntry) -> (r: bool)
        requires
            entry.modified.valid(),
        ensures
            exists|t: Timestamp| t.valid() && r == accepts(*self, *entry, t),
    {
        let t = now();
        self.matches_at(entry, &t)
    }
}

/// `template` with the placeholders filled in from `entry`.
pub fn expand_placeholders(template: &String, entry: &FileEntry) -> (r: String)
    requires
        entry.modified.valid(),
    ensures
        r@ == expanded(template@, *entry),
{
    let (year, month, _day) = calendar_date(entry.modified.secs);
    let t = chars_of(template.as_str());
    let y = signed_decimal_chars(year as i64);
    let m = zero_padded_chars(month as u64, 2);
    let ext: Vec<char> = match &entry.extension {
        Some(x) => chars_of(x.as_str()),
        None => vec_of("none"),
    };
    proof {
        reveal_strlit("{year}");
        reveal_strlit("{month}");
        reveal_strlit("{ext}");
    }
    let step1 = replace_all(&t, &vec_of("{year}"), &y);
    let step2 = replace_all(&step1, &vec_of("{month}"), &m);
    let step3 = replace_all(&step2, &vec_of("{ext}"), &ext);
    string_of(&step3)
}

impl RuleSet {
    /// Where the rules send `entry` at time `now`: the first accepting rule's
    /// folder, filled in.
    pub fn destination_at(&self, entry: &FileEntry, now: &Timestamp) -> (r: Option<String>)
        requires
            now.valid(),
            entry.modified.valid(),
        ensures
            r matches Some(d) ==> rule_destination(self.rules@, *entry, *now) == Some(d@),
            r is None ==> rule_destination(self.rules@, *entry, *now) is None,
    {
        let mut i: usize = 0;
        while i < self.rules.len()
            invariant
                i <= self.rules.len(),
                now.valid(),
                entry.modified.valid(),
                first_rule(self.rules@, *entry, *now, 0) == first_rule(
                    self.rules@,
                    *entry,
                    *now,
                    i as int,
                ),
            decreases self.rules.len() - i,
        {
            if self.rules[i].matcher.matches_at(entry, now) {
                return Some(expand_placeholders(&self.rules[i].into, entry));
            }
            i = i + 1;
        }
        None
    }

    /// Where the rules send `entry` now (by the clock).
    pub fn destination_for(&self, entry: &FileEntry) -> (r: Option<String>)
        requires
            entry.modified.valid(),
        ensures
            exists|t: Timestamp|
                t.valid() && (match r {
                    Some(d) => rule_destination(self.rules@, *entry, t) == Some(d@),
                    None => rule_destination(self.rules@, *entry, t) is None,
                }),
    {
        let t = now();
        self.destination_at(entry, &t)
    }
}

/// The first rule that accepts a file decides where it goes: when rule `i`
/// accepts it and no rule before `i` does, its folder is rule `i`'s, filled in,
/// whatever later rules say; when no rule accepts it, it goes nowhere.
pub proof fn lemma_first_accepting_rule_wins(rules: Seq<Rule>, e: FileEntry, now: Timestamp, i: int)
    requires
        0 <= i < rules.len(),
        accepts(rules[i].matcher, e, now),
        forall|j: int| 0 <= j < i ==> !accepts(#[trigger] rules[j].matcher, e, now),
    ensures
        rule_destination(rules, e, now) == Some(expanded(rules[i].into@, e)),
{
    lemma_first_from(rules, e, now, i, 0);
}

/// Scanning from `k` (at or before `i`) stops at `i`.
proof fn lemma_first_from(rules: Seq<Rule>, e: FileEntry, now: Timestamp, i: int, k: int)
    requires
        0 <= k <= i < rules.len(),
        accepts(rules[i].matcher, e, now),
        forall|j: int| 0 <= j < i ==> !accepts(#[trigger] rules[j].matcher, e, now),
    ensures
        first_rule(rules, e, now, k) == Some(i),
    decreases i - k,
{
    if k < i {
        assert(!accepts(rules[k].matcher, e, now));
        lemma_first_from(rules, e, now, i, k + 1);
    }
}

/// When no rule accepts a file, the rules send it nowhere.
pub proof fn lemma_no_accepting_rule(rules: Seq<Rule>, e: FileEntry, now: Timestamp)
    requires
        forall|j: int| 0 <= j < rules.len() ==> !accepts(#[trigger] rules[j].matcher, e, now),
    ensures
        rule_destination(rules, e, now) is None,
{
    lemma_none_from(rules, e, now, 0);
}

/// Scanning from `k` finds nothing when no rule accepts.
proof fn lemma_none_from(rules: Seq<Rule>, e: FileEntry, now: Timestamp, k: int)
    requires
        0 <= k,
        forall|j: int| 0 <= j < rules.len() ==> !accepts(#[trigger] rules[j].matcher, e, now),
    ensures
        first_rule(rules, e, now, k) is None,
    decreases rules.len() - k,
{
    if k < rules.len() {
        assert(!accepts(rules[k].matcher, e, now));
        lemma_none_from(rules, e, now, k + 1);
    }
}

} // verus!
