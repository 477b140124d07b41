//! The catalog of item names that listings may trade, and how it is read
//! from its pipe-delimited sources.

use vstd::prelude::*;
use crate::text::{int_text, integer_text, parse_i32, parsed_i32, text_is};

verus! {

/// The tier value of an item that has no tier.
pub const NO_TIER: i32 = -1;

/// The most names that one completion request returns.
pub const MAX_COMPLETIONS: usize = 15;

/// One record of a catalog source: an item's name and tier.
#[derive(Debug)]
pub struct Item {
    pub name: String,
    pub tier: i32,
}

/// The name under which an item is listed: the bare name when it has no
/// tier, else the name followed by " (T<tier>)".
pub open spec fn display_name(name: Seq<char>, tier: i32) -> Seq<char> {
    if tier == NO_TIER {
        name
    } else {
        name + " (T"@ + int_text(tier as int) + ")"@
    }
}

impl Item {
    /// The name under which this item is listed.
    pub fn display_name(&self) -> (r: String)
        ensures
            r@ == display_name(self.name@, self.tier),
    {
        if self.tier == NO_TIER {
            self.name.clone()
        } else {
            let mut s = self.name.clone();
            s.append(" (T");
            let t = integer_text(self.tier as i64);
            s.append(t.as_str());
            s.append(")");
            s
        }
    }
}

/// Why a catalog source could not be read.
#[derive(Clone, Copy, Debug, PartialEq, Eq, Structural)]
pub enum LoadError {
    /// The source could not be read at all.
    Unreadable,
    /// The source is not a well-formed pipe-delimited table.
    Malformed,
    /// A record has no tier field, or one that is not an integer.
    BadTier,
}

/// The records that the pipe-delimited reading of `text` yields after its
/// header line, each a sequence of fields; `None` where the reader fails.
pub uninterp spec fn pipe_records(text: Seq<char>) -> Option<Seq<Seq<Seq<char>>>>;

/// `s` without its leading and trailing white space.
pub uninterp spec fn trimmed(s: Seq<char>) -> Seq<char>;

/// `s` in lower case.
pub uninterp spec fn lower_of(s: Seq<char>) -> Seq<char>;

/// Whether `needle` occurs in `hay` as a contiguous run.
pub open spec fn occurs_in(needle: Seq<char>, hay: Seq<char>) -> bool {
    exists|i: int|
        0 <= i && i + needle.len() <= hay.len() && #[trigger] hay.subrange(i, i + needle.len())
            == needle
}

#[verifier::external_type_specification]
#[verifier::external_body]
pub struct ExCsvError(csv::Error);

/// Relies on the csv crate's reader, configured for '|' as delimiter, no
/// quoting and a header line, to split `text` into records of fields.
#[verifier::external_body]
fn read_pipe_records(text: &str) -> (r: Result<Vec<Vec<String>>, csv::Error>)
    ensures
        r is Ok <==> pipe_records(text@) is Some,
        r is Ok ==> r->Ok_0.deep_view() == pipe_records(text@)->Some_0,
{
    let mut reader = csv::ReaderBuilder::new()
        .delimiter(b'|')
        .quoting(false)
        .has_headers(true)
        .from_reader(text.as_bytes());
    reader
        .records()
        .map(|rec| rec.map(|fields| fields.iter().map(|f| f.to_string()).collect()))
        .collect()
}

/// Relies on str::trim: the result depends on the characters alone.
#[verifier::external_body]
fn trim_text(s: &str) -> (r: String)
    ensures
        r@ == trimmed(s@),
{
    s.trim().to_string()
}

/// Relies on str::to_lowercase: the result depends on the characters alone.
#[verifier::external_body]
fn lowercase(s: &str) -> (r: String)
    ensures
        r@ == lower_of(s@),
{
    s.to_lowercase()
}

/// Relies on memchr's substring search, which finds a needle in a haystack
/// whenever it occurs; on UTF-8 text a byte match is a character match.
#[verifier::external_body]
fn text_occurs_in(needle: &str, hay: &str) -> (r: bool)
    ensures
        r == occurs_in(needle@, hay@),
{
    memchr::memmem::Finder::new(needle.as_bytes()).find(hay.as_bytes()).is_some()
}

/// The name and tier that a record of a catalog source stands for: its first
/// field trimmed, and its second field trimmed and read as an integer. `None`
/// where the record has fewer than two fields or the tier is no integer.
pub open spec fn record_item(rec: Seq<Seq<char>>) -> Option<(Seq<char>, i32)> {
    if rec.len() >= 2 && parsed_i32(trimmed(rec[1])) is Some {
        Some((trimmed(rec[0]), parsed_i32(trimmed(rec[1]))->Some_0))
    } else {
        None
    }
}

/// Turns the records of a catalog source into items, one for each record in
/// order. Fails with `BadTier` when any record has no integer tier.
pub fn items_from_records(records: &Vec<Vec<String>>) -> (r: Result<Vec<Item>, LoadError>)
    ensures
        r is Ok <==> forall|i: int|
            0 <= i < records@.len() ==> (#[trigger] record_item(records[i].deep_view())) is Some,
        r is Err ==> r == Err::<Vec<Item>, LoadError>(LoadError::BadTier),
        r is Ok ==> r->Ok_0@.len() == records@.len() && forall|i: int|
            0 <= i < records@.len() ==> record_item(#[trigger] records[i].deep_view())
                == Some((r->Ok_0[i].name@, r->Ok_0[i].tier)),
{
    let mut items: Vec<Item> = Vec::new();
    let mut i: usize = 0;
    while i < records.len()
        invariant
            i <= records@.len(),
            items@.len() == i,
            forall|k: int|
                0 <= k < i ==> record_item(#[trigger] records[k].deep_view()) == Some(
                    (items[k].name@, items[k].tier),
                ),
        decreases records@.len() - i,
    {
        let rec = &records[i];
        proof {
            assert(rec.deep_view().len() == rec@.len());
        }
        if rec.len() < 2 {
            return Err(LoadError::BadTier);
        }
        proof {
            assert(rec.deep_view()[1] == rec[1]@);
            assert(rec.deep_view()[0] == rec[0]@);
        }
        let tier_text = trim_text(rec[1].as_str());
        match parse_i32(tier_text.as_str()) {
            Some(tier) => {
                let name = trim_text(rec[0].as_str());
                items.push(Item { name, tier });
            },
            None => {
                return Err(LoadError::BadTier);
            },
        }
        i = i + 1;
    }
    Ok(items)
}

/// Why a source cannot be read into items, if it cannot: it is no
/// well-formed table, or some record has no integer tier.
pub open spec fn source_error(text: Seq<char>) -> Option<LoadError> {
    match pipe_records(text) {
        None => Some(LoadError::Malformed),
        Some(recs) => if forall|i: int|
            0 <= i < recs.len() ==> (#[trigger] record_item(recs[i])) is Some {
            None
        } else {
            Some(LoadError::BadTier)
        },
    }
}

/// The name and tier of each record of a source that reads without error.
pub open spec fn source_entries(text: Seq<char>) -> Seq<(Seq<char>, i32)> {
    pipe_records(text)->Some_0.map_values(|rec: Seq<Seq<char>>| record_item(rec)->Some_0)
}

/// The name and tier of an item.
pub open spec fn item_entry(it: Item) -> (Seq<char>, i32) {
    (it.name@, it.tier)
}

/// The entries of all `sources`, in order.
pub open spec fn all_entries(sources: Seq<Seq<char>>) -> Seq<(Seq<char>, i32)>
    decreases sources.len(),
{
    if sources.len() == 0 {
        Seq::empty()
    } else {
        all_entries(sources.drop_last()) + source_entries(sources.last())
    }
}

/// Reads the items of one catalog source: a header line, then one line per
/// item holding its name and tier separated by '|'.
pub fn load_items(text: &str) -> (r: Result<Vec<Item>, LoadError>)
    ensures
        r is Err <==> source_error(text@) is Some,
        r is Err ==> r->Err_0 == source_error(text@)->Some_0,
        r is Ok ==> r->Ok_0@.map_values(|it: Item| item_entry(it)) == source_entries(text@),
{
    match read_pipe_records(text) {
        Ok(records) => {
            let r = items_from_records(&records);
            proof {
                let recs = records.deep_view();
                assert forall|i: int| 0 <= i < recs.len() implies #[trigger] record_item(recs[i])
                    == record_item(records[i].deep_view()) by {}
                assert forall|i: int| 0 <= i < recs.len() implies record_item(recs[i])
                    == #[trigger] record_item(records[i].deep_view()) by {}
                if r is Ok {
                    assert(r->Ok_0@.map_values(|it: Item| item_entry(it)) =~= source_entries(
                        text@,
                    ));
                }
            }
            r
        },
        Err(_) => Err(LoadError::Malformed),
    }
}

/// The set of item names that listings may trade. Each name appears once;
/// names keep the order in which they were first added.
#[derive(Debug)]
pub struct Catalog {
    names: Vec<String>,
}

impl View for Catalog {
    type V = Seq<Seq<char>>;

    closed spec fn view(&self) -> Seq<Seq<char>> {
        self.names.deep_view()
    }
}

impl Catalog {
    /// Each name appears once.
    pub open spec fn wf(&self) -> bool {
        self@.no_duplicates()
    }

    /// An empty catalog.
    pub fn new() -> (r: Catalog)
        ensures
            r.wf(),
            r@ == Seq::<Seq<char>>::empty(),
    {
        let r = Catalog { names: Vec::new() };
        proof {
            assert(r@ =~= Seq::<Seq<char>>::empty());
        }
        r
    }

    /// The number of names.
    pub fn len(&self) -> (r: usize)
        ensures
            r == self@.len(),
    {
        self.names.len()
    }

    /// Whether `name` is in the catalog, exactly as written.
    pub fn contains(&self, name: &str) -> (r: bool)
        ensures
            r == self@.contains(name@),
    {
        let mut i: usize = 0;
        while i < self.names.len()
            invariant
                i <= self@.len(),
                self@ == self.names.deep_view(),
                forall|k: int| 0 <= k < i ==> self@[k] != name@,
            decreases self@.len() - i,
        {
            if text_is(self.names[i].as_str(), name) {
                proof {
                    assert(self@[i as int] == name@);
                }
                return true;
            }
            i = i + 1;
        }
        false
    }

    /// Adds `name` unless it is there already.
    pub fn insert(&mut self, name: String)
        requires
            old(self).wf(),
        ensures
            final(self).wf(),
            old(self)@.contains(name@) ==> final(self)@ == old(self)@,
            !old(self)@.contains(name@) ==> final(self)@ == old(self)@.push(name@),
    {
        if !self.contains(name.as_str()) {
            let ghost before = self@;
            self.names.push(name);
            proof {
                assert(self@ =~= before.push(name@));
                assert forall|a: int, b: int| 0 <= a < b < self@.len() implies self@[a]
                    != self@[b] by {
                    if b == before.len() {
                        assert(before[a] == self@[a]);
                    }
                }
            }
        }
    }

    /// The catalog of the display names of `items`.
    pub fn from_items(items: &Vec<Item>) -> (r: Catalog)
        ensures
            r.wf(),
            forall|n: Seq<char>|
                #![trigger r@.contains(n)]
                r@.contains(n) <==> exists|i: int|
                    0 <= i < items@.len() && n == display_name(
                        #[trigger] items[i].name@,
                        items[i].tier,
                    ),
    {
        let mut r = Catalog::new();
        let mut i: usize = 0;
        while i < items.len()
            invariant
                i <= items@.len(),
                r.wf(),
                forall|n: Seq<char>|
                    #![trigger r@.contains(n)]
                    r@.contains(n) <==> exists|k: int|
                        0 <= k < i && n == display_name(#[trigger] items[k].name@, items[k].tier),
            decreases items@.len() - i,
        {
            let name = items[i].display_name();
            let ghost before = r@;
            r.insert(name);
            proof {
                assert forall|n: Seq<char>| #[trigger] r@.contains(n) implies exists|k: int|
                    0 <= k < i + 1 && n == display_name(
                        #[trigger] items[k].name@,
                        items[k].tier,
                    ) by {
                    if n != name@ {
                        assert(before.contains(n));
                    }
                }
                assert forall|n: Seq<char>|
                    (exists|k: int|
                        0 <= k < i + 1 && n == display_name(
                            #[trigger] items[k].name@,
                            items[k].tier,
                        )) implies #[trigger] r@.contains(n) by {
                    let k = choose|k: int|
                        0 <= k < i + 1 && n == display_name(
                            #[trigger] items[k].name@,
                            items[k].tier,
                        );
                    if k < i {
                        assert(before.contains(n));
                        let j = choose|j: int| 0 <= j < before.len() && before[j] == n;
                        if !before.contains(name@) {
                            assert(r@[j] == before[j]);
                        }
                    } else {
                        assert(n == name@);
                        if !before.contains(n) {
                            assert(r@[r@.len() - 1] == n);
                        }
                    }
                }
            }
            i = i + 1;
        }
        r
    }

    /// The catalog of the display names of the items of all `sources`. Fails
    /// with the error of the first source that cannot be read.
    pub fn load(sources: &Vec<String>) -> (r: Result<Catalog, LoadError>)
        ensures
            r is Ok <==> forall|k: int|
                0 <= k < sources@.len() ==> (#[trigger] source_error(sources[k]@)) is None,
            r is Err ==> exists|k: int|
                0 <= k < sources@.len() && source_error(#[trigger] sources[k]@) == Some(r->Err_0)
                    && forall|j: int| 0 <= j < k ==> (#[trigger] source_error(sources[j]@)) is None,
            r is Ok ==> r->Ok_0.wf() && forall|n: Seq<char>|
                #![trigger r->Ok_0@.contains(n)]
                r->Ok_0@.contains(n) <==> exists|i: int|
                    0 <= i < all_entries(sources.deep_view()).len() && n == display_name(
                        (#[trigger] all_entries(sources.deep_view())[i]).0,
                        all_entries(sources.deep_view())[i].1,
                    ),
    {
        let ghost texts = sources.deep_view();
        let mut items: Vec<Item> = Vec::new();
        let mut k: usize = 0;
        while k < sources.len()
            invariant
                k <= sources@.len(),
                texts == sources.deep_view(),
                forall|j: int| 0 <= j < k ==> (#[trigger] source_error(sources[j]@)) is None,
                items@.map_values(|it: Item| item_entry(it)) == all_entries(texts.take(k as int)),
            decreases sources@.len() - k,
        {
            proof {
                assert(texts[k as int] == sources[k as int]@);
            }
            match load_items(sources[k].as_str()) {
                Err(e) => {
                    return Err(e);
                },
                Ok(mut found) => {
                    let ghost before = items@;
                    items.append(&mut found);
                    proof {
                        let t = texts.take(k + 1);
                        assert(t.drop_last() =~= texts.take(k as int));
                        assert(t.last() == sources[k as int]@);
                        assert(items@.map_values(|it: Item| item_entry(it)) =~= before.map_values(
                            |it: Item| item_entry(it),
                        ) + source_entries(sources[k as int]@));
                    }
                },
            }
            k = k + 1;
        }
        let catalog = Catalog::from_items(&items);
        proof {
            assert(texts.take(k as int) =~= texts);
            let all = all_entries(texts);
            let es = items@.map_values(|it: Item| item_entry(it));
            assert forall|n: Seq<char>| #[trigger] catalog@.contains(n) implies exists|i: int|
                0 <= i < all.len() && n == display_name((#[trigger] all[i]).0, all[i].1) by {
                let i = choose|i: int|
                    0 <= i < items@.len() && n == display_name(
                        #[trigger] items[i].name@,
                        items[i].tier,
                    );
                assert(es[i] == all[i]);
            }
            assert forall|n: Seq<char>|
                (exists|i: int|
                    0 <= i < all.len() && n == display_name(
                        (#[trigger] all[i]).0,
                        all[i].1,
                    )) implies #[trigger] catalog@.contains(n) by {
                let i = choose|i: int|
                    0 <= i < all.len() && n == display_name((#[trigger] all[i]).0, all[i].1);
                assert(es[i] == all[i]);
                assert(n == display_name(items[i].name@, items[i].tier));
            }
        }
        Ok(catalog)
    }

    /// Up to fifteen names that contain `partial` when both are put in lower
    /// case, in catalog order.
    pub fn autocomplete(&self, partial: &str) -> (r: Vec<String>)
        ensures
            r.deep_view() == completions(self@, partial@),
    {
        let needle = lowercase(partial);
        let ghost pred = |n: Seq<char>| occurs_in(lower_of(partial@), lower_of(n));
        let mut found: Vec<String> = Vec::new();
        let mut i: usize = 0;
        while i < self.names.len() && found.len() < MAX_COMPLETIONS
            invariant
                i <= self@.len(),
                self@ == self.names.deep_view(),
                needle@ == lower_of(partial@),
                pred == (|n: Seq<char>| occurs_in(lower_of(partial@), lower_of(n))),
                found.deep_view() == self@.take(i as int).filter(pred),
                found@.len() <= MAX_COMPLETIONS,
            decreases self@.len() - i,
        {
            let hay = lowercase(self.names[i].as_str());
            let ghost before = found.deep_view();
            proof {
                assert(self@[i as int] == self.names[i as int]@);
                self@.take(i as int).lemma_filter_push(self@[i as int], pred);
                assert(self@.take(i as int).push(self@[i as int]) =~= self@.take(i + 1));
            }
            if text_occurs_in(needle.as_str(), hay.as_str()) {
                found.push(self.names[i].clone());
                proof {
                    assert(pred(self@[i as int]));
                    assert(found.deep_view() =~= before.push(self@[i as int]));
                }
            } else {
                proof {
                    assert(!pred(self@[i as int]));
                }
            }
            i = i + 1;
        }
        proof {
            let all = self@.filter(pred);
            lemma_filter_prefix(self@, pred, i as int);
            if i < self@.len() {
                assert(found@.len() == MAX_COMPLETIONS);
            } else {
                assert(self@.take(i as int) =~= self@);
            }
            assert(found.deep_view() =~= completions(self@, partial@));
        }
        found
    }
}

/// The names of `names` that contain `partial` when both are put in lower
/// case, in order, cut off after the first fifteen.
pub open spec fn completions(names: Seq<Seq<char>>, partial: Seq<char>) -> Seq<Seq<char>> {
    let matching = names.filter(|n: Seq<char>| occurs_in(lower_of(partial), lower_of(n)));
    if matching.len() <= MAX_COMPLETIONS {
        matching
    } else {
        matching.take(MAX_COMPLETIONS as int)
    }
}

/// Filtering a prefix gives a prefix of the filtered whole.
proof fn lemma_filter_prefix(s: Seq<Seq<char>>, pred: spec_fn(Seq<char>) -> bool, i: int)
    requires
        0 <= i <= s.len(),
    ensures
        s.take(i).filter(pred) == s.filter(pred).take(s.take(i).filter(pred).len() as int),
        s.take(i).filter(pred).len() <= s.filter(pred).len(),
    decreases s.len() - i,
{
    if i == s.len() {
        assert(s.take(i) =~= s);
    } else {
        lemma_filter_prefix(s, pred, i + 1);
        let a = s.take(i);
        let b = s.take(i + 1);
        assert(b.drop_last() =~= a);
        a.lemma_filter_push(s[i], pred);
        assert(a.push(s[i]) =~= b);
        assert(a.filter(pred) =~= s.filter(pred).take(a.filter(pred).len() as int));
    }
}

} // verus!
