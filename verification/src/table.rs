//! The statistics table: life expectancy by country name, looked up exactly
//! or searched with the fuzzy matcher.

use vstd::prelude::*;
use vstd::string::StringExecFns;
use crate::fuzzy::{
    fuzzy_match, fuzzy_match_spec, lemma_substring_is_matched_in_place, MatchResult, MatchView,
};
use crate::matching::{is_subsequence, is_substring, occurs_at, run};
use crate::optimum::lemma_best_placement;

verus! {

/// Life expectancy in one country, in hundredths of a year: of the whole
/// population, of men and of women.
#[derive(Clone, Copy, Debug, PartialEq, Eq, Structural)]
pub struct CountryInfo {
    pub all: u32,
    pub male: u32,
    pub female: u32,
}

/// One line of the table.
struct Entry {
    name: String,
    info: CountryInfo,
}

/// The lines of a table as mathematical values.
spec fn lines(entries: Seq<Entry>) -> Seq<(Seq<char>, CountryInfo)> {
    entries.map_values(|e: Entry| (e.name@, e.info))
}

/// No two lines have the same country name.
pub open spec fn names_distinct(table: Seq<(Seq<char>, CountryInfo)>) -> bool {
    forall|i: int, j: int| 0 <= i < j < table.len() ==> (#[trigger] table[i]).0 != (#[trigger] table[j]).0
}

/// The place of the first line named `name`, if there is one.
pub open spec fn position_of(table: Seq<(Seq<char>, CountryInfo)>, name: Seq<char>) -> Option<int>
    decreases table.len(),
{
    if table.len() == 0 {
        None
    } else {
        match position_of(table.drop_last(), name) {
            Some(k) => Some(k),
            None => if table.last().0 == name {
                Some(table.len() - 1)
            } else {
                None
            },
        }
    }
}

/// The figures of the line named exactly `name`, if there is one.
pub open spec fn lookup_spec(table: Seq<(Seq<char>, CountryInfo)>, name: Seq<char>) -> Option<
    CountryInfo,
> {
    match position_of(table, name) {
        Some(k) => Some(table[k].1),
        None => None,
    }
}

/// The matches of `query` among the names of the table, in the order of the
/// table; a name that the query does not match is left out.
pub open spec fn search_spec(table: Seq<(Seq<char>, CountryInfo)>, query: Seq<char>) -> Seq<
    MatchView,
>
    decreases table.len(),
{
    if table.len() == 0 {
        Seq::empty()
    } else {
        let before = search_spec(table.drop_last(), query);
        match fuzzy_match_spec(query, table.last().0) {
            Some(found) => before.push(found),
            None => before,
        }
    }
}

/// The views of a list of matches.
pub open spec fn match_views(found: Seq<MatchResult>) -> Seq<MatchView> {
    found.map_values(|r: MatchResult| r@)
}

/// `position_of` finds the first line of the given name, and finds none only
/// where no line has that name.
pub proof fn lemma_position_of(table: Seq<(Seq<char>, CountryInfo)>, name: Seq<char>)
    ensures
        match position_of(table, name) {
            Some(k) => {
                &&& 0 <= k < table.len()
                &&& table[k].0 == name
                &&& forall|j: int| 0 <= j < k ==> (#[trigger] table[j]).0 != name
            },
            None => forall|j: int| 0 <= j < table.len() ==> (#[trigger] table[j]).0 != name,
        },
    decreases table.len(),
{
    if table.len() > 0 {
        let front = table.drop_last();
        lemma_position_of(front, name);
        match position_of(front, name) {
            Some(k) => {
                assert forall|j: int| 0 <= j < k implies (#[trigger] table[j]).0 != name by {
                    assert(front[j] == table[j]);
                }
                assert(front[k] == table[k]);
            },
            None => {
                assert forall|j: int| 0 <= j < table.len() - 1 implies (#[trigger] table[j]).0
                    != name by {
                    assert(front[j] == table[j]);
                }
            },
        }
    }
}

/// Every name of the table that the query matches is among the results.
pub proof fn lemma_search_finds_every_match(
    table: Seq<(Seq<char>, CountryInfo)>,
    query: Seq<char>,
    k: int,
)
    requires
        0 <= k < table.len(),
        fuzzy_match_spec(query, table[k].0) is Some,
    ensures
        search_spec(table, query).contains(fuzzy_match_spec(query, table[k].0)->0),
    decreases table.len(),
{
    let front = table.drop_last();
    let before = search_spec(front, query);
    let all = search_spec(table, query);
    if k < table.len() - 1 {
        lemma_search_finds_every_match(front, query, k);
        assert(front[k] == table[k]);
        let wanted = fuzzy_match_spec(query, table[k].0)->0;
        let t = choose|t: int| 0 <= t < before.len() && before[t] == wanted;
        assert(all[t] == wanted);
    } else {
        assert(all.last() == fuzzy_match_spec(query, table[k].0)->0);
    }
}

/// A name of the table in which a non-empty query occurs as one unbroken run
/// is among the results, and the places reported for it are an unbroken run
/// over an occurrence of the query.
pub proof fn lemma_search_finds_substring(
    table: Seq<(Seq<char>, CountryInfo)>,
    query: Seq<char>,
    k: int,
)
    requires
        0 <= k < table.len(),
        query.len() >= 1,
        is_substring(query, table[k].0),
    ensures
        exists|t: int|
            0 <= t < search_spec(table, query).len() && {
                let found = #[trigger] search_spec(table, query)[t];
                &&& found.country_name == table[k].0
                &&& found.matched_indices == run(found.matched_indices[0], query.len())
                &&& occurs_at(query, table[k].0, found.matched_indices[0])
            },
{
    lemma_substring_is_matched_in_place(query, table[k].0);
    lemma_search_finds_every_match(table, query, k);
    let wanted = fuzzy_match_spec(query, table[k].0)->0;
    let results = search_spec(table, query);
    let t = choose|t: int| 0 <= t < results.len() && results[t] == wanted;
    assert(results[t].country_name == table[k].0);
}

/// Every result is the match of the query with some name of the table.
pub proof fn lemma_search_reports_only_matches(
    table: Seq<(Seq<char>, CountryInfo)>,
    query: Seq<char>,
    t: int,
)
    requires
        0 <= t < search_spec(table, query).len(),
    ensures
        exists|k: int|
            0 <= k < table.len() && fuzzy_match_spec(query, (#[trigger] table[k]).0) == Some(
                search_spec(table, query)[t],
            ),
    decreases table.len(),
{
    let front = table.drop_last();
    let before = search_spec(front, query);
    if t < before.len() {
        lemma_search_reports_only_matches(front, query, t);
        let k = choose|k: int|
            0 <= k < front.len() && fuzzy_match_spec(query, (#[trigger] front[k]).0) == Some(
                before[t],
            );
        assert(front[k] == table[k]);
    } else {
        let k = table.len() - 1;
        assert(fuzzy_match_spec(query, table[k].0) == Some(search_spec(table, query)[t]));
    }
}

/// The search finds nothing exactly when the query is a subsequence of no
/// name in the table.
pub proof fn lemma_search_empty(table: Seq<(Seq<char>, CountryInfo)>, query: Seq<char>)
    ensures
        search_spec(table, query).len() == 0 <==> forall|k: int|
            0 <= k < table.len() ==> !is_subsequence(query, (#[trigger] table[k]).0),
    decreases table.len(),
{
    if table.len() > 0 {
        let front = table.drop_last();
        lemma_search_empty(front, query);
        lemma_best_placement(query, table.last().0);
        if search_spec(table, query).len() == 0 {
            assert forall|k: int| 0 <= k < table.len() implies !is_subsequence(
                query,
                (#[trigger] table[k]).0,
            ) by {
                if k < table.len() - 1 {
                    assert(front[k] == table[k]);
                }
            }
        } else if search_spec(front, query).len() != 0 {
            let k = choose|k: int|
                0 <= k < front.len() && is_subsequence(query, (#[trigger] front[k]).0);
            assert(front[k] == table[k]);
        }
    }
}

/// The names of every result come from the table, so each can be looked up.
pub proof fn lemma_search_names(table: Seq<(Seq<char>, CountryInfo)>, query: Seq<char>, t: int)
    requires
        0 <= t < search_spec(table, query).len(),
    ensures
        lookup_spec(table, search_spec(table, query)[t].country_name) is Some,
{
    lemma_search_reports_only_matches(table, query, t);
    lemma_position_of(table, search_spec(table, query)[t].country_name);
}

/// Life expectancy by country name. No two lines have the same name; the
/// lines keep the order in which their names were first inserted.
pub struct StatisticsTable {
    entries: Vec<Entry>,
}

impl View for StatisticsTable {
    type V = Seq<(Seq<char>, CountryInfo)>;

    closed spec fn view(&self) -> Seq<(Seq<char>, CountryInfo)> {
        lines(self.entries@)
    }
}

/// The place of the first entry named `key`.
fn find(entries: &Vec<Entry>, key: &String) -> (found: Option<usize>)
    ensures
        match found {
            Some(k) => position_of(lines(entries@), key@) == Some(k as int),
            None => position_of(lines(entries@), key@) is None,
        },
{
    let mut i: usize = 0;
    while i < entries.len()
        invariant
            i <= entries.len(),
            forall|j: int| 0 <= j < i ==> (#[trigger] lines(entries@)[j]).0 != key@,
        decreases entries.len() - i,
    {
        if entries[i].name == *key {
            proof {
                lemma_position_of(lines(entries@), key@);
                assert(lines(entries@)[i as int].0 == key@);
            }
            return Some(i);
        }
        i += 1;
    }
    proof {
        lemma_position_of(lines(entries@), key@);
    }
    None
}

impl StatisticsTable {
    #[verifier::type_invariant]
    spec fn well_formed(self) -> bool {
        names_distinct(lines(self.entries@))
    }

    /// The empty table.
    pub fn new() -> (table: Self)
        ensures
            table@ == Seq::<(Seq<char>, CountryInfo)>::empty(),
    {
        let table = StatisticsTable { entries: Vec::new() };
        assert(lines(table.entries@) =~= Seq::empty());
        table
    }

    /// The number of countries.
    pub fn len(&self) -> (n: usize)
        ensures
            n == self@.len(),
    {
        self.entries.len()
    }

    /// Whether the table holds no country at all.
    pub fn is_empty(&self) -> (r: bool)
        ensures
            r == (self@.len() == 0),
    {
        self.entries.len() == 0
    }

    /// Sets the figures of the country `name`. A country that the table
    /// already holds keeps its place and gets the new figures, and its old
    /// ones are returned; a new country goes to the end.
    pub fn insert(&mut self, name: &str, info: CountryInfo) -> (previous: Option<CountryInfo>)
        ensures
            names_distinct(final(self)@),
            match position_of(old(self)@, name@) {
                Some(k) => {
                    &&& previous == Some(old(self)@[k].1)
                    &&& final(self)@ == old(self)@.update(k, (name@, info))
                },
                None => {
                    &&& previous is None
                    &&& final(self)@ == old(self)@.push((name@, info))
                },
            },
    {
        proof {
            use_type_invariant(&*self);
        }
        let key = String::from_str(name);
        let mut entries: Vec<Entry> = Vec::new();
        assert(lines(entries@) =~= Seq::empty());
        std::mem::swap(&mut entries, &mut self.entries);
        let ghost before = lines(entries@);
        proof {
            lemma_position_of(before, key@);
        }
        match find(&entries, &key) {
            Some(k) => {
                let previous = entries[k].info;
                entries.set(k, Entry { name: key, info });
                assert(lines(entries@) =~= before.update(k as int, (name@, info)));
                assert forall|i: int, j: int| 0 <= i < j < before.len() implies (
                #[trigger] lines(entries@)[i]).0 != (#[trigger] lines(entries@)[j]).0 by {
                    assert(before[i].0 != before[j].0);
                }
                self.entries = entries;
                Some(previous)
            },
            None => {
                entries.push(Entry { name: key, info });
                assert(lines(entries@) =~= before.push((name@, info)));
                assert forall|i: int, j: int| 0 <= i < j < before.len() + 1 implies (
                #[trigger] lines(entries@)[i]).0 != (#[trigger] lines(entries@)[j]).0 by {
                    if j < before.len() {
                        assert(before[i].0 != before[j].0);
                    } else {
                        assert(before[i].0 != key@);
                    }
                }
                self.entries = entries;
                None
            },
        }
    }

    /// The figures of the country named exactly `name`, compared character by
    /// character as the name is stored.
    pub fn lookup_exact(&self, name: &str) -> (info: Option<CountryInfo>)
        ensures
            info == lookup_spec(self@, name@),
            info is Some <==> exists|k: int| 0 <= k < self@.len() && (#[trigger] self@[k]).0 == name@,
            names_distinct(self@),
    {
        proof {
            use_type_invariant(self);
            lemma_position_of(self@, name@);
        }
        let key = String::from_str(name);
        match find(&self.entries, &key) {
            Some(k) => Some(self.entries[k].info),
            None => None,
        }
    }

    /// The matches of `query` among the country names, in the order of the
    /// table. A name is reported when the query is a subsequence of it; the
    /// empty query is a subsequence of every name.
    pub fn search(&self, query: &str) -> (found: Vec<MatchResult>)
        ensures
            match_views(found@) == search_spec(self@, query@),
    {
        let mut found: Vec<MatchResult> = Vec::new();
        let mut i: usize = 0;
        assert(self@.take(0) =~= Seq::empty());
        while i < self.entries.len()
            invariant
                i <= self.entries.len(),
                match_views(found@) == search_spec(self@.take(i as int), query@),
            decreases self.entries.len() - i,
        {
            let hit = fuzzy_match(query, self.entries[i].name.as_str());
            let ghost before = found@;
            proof {
                let longer = self@.take(i + 1);
                assert(longer.drop_last() =~= self@.take(i as int));
                assert(longer.last() == self@[i as int]);
            }
            match hit {
                Some(r) => {
                    found.push(r);
                    assert(match_views(found@) =~= match_views(before).push(r@));
                },
                None => {},
            }
            i += 1;
        }
        assert(self@.take(self@.len() as int) =~= self@);
        found
    }
}

} // verus!
