//! Data model of the feed and the normalizer that turns parsed feed
//! entries into `Paper` records.

use vstd::prelude::*;

use crate::client::SearchError;
use crate::scan::{trim_spec, trim_str};

verus! {

/// One author of a feed entry, as it stands on the wire.
#[derive(Debug)]
pub struct Author {
    pub name: String,
}

/// One feed entry, as it stands on the wire: untrimmed text fields and
/// the ordered author list.
#[derive(Debug)]
pub struct Entry {
    pub title: String,
    pub summary: String,
    pub id: String,
    pub author: Vec<Author>,
}

/// A whole feed document. `entry` is `None` when the document holds no
/// entry elements at all; absence and emptiness both normalize to an
/// empty paper list.
#[derive(Debug)]
pub struct Feed {
    pub entry: Option<Vec<Entry>>,
}

/// A normalized paper record: trimmed title and abstract, the authors'
/// names in document order, and the entry's identifier as its URL.
#[derive(Debug)]
pub struct Paper {
    pub title: String,
    pub abstract_text: String,
    pub authors: Vec<String>,
    pub url: String,
}

/// Mathematical image of an `Entry`.
pub ghost struct EntryV {
    pub title: Seq<char>,
    pub summary: Seq<char>,
    pub id: Seq<char>,
    pub authors: Seq<Seq<char>>,
}

/// Mathematical image of a `Feed`.
pub ghost struct FeedV {
    pub entry: Option<Seq<EntryV>>,
}

/// Mathematical image of a `Paper`.
pub ghost struct PaperV {
    pub title: Seq<char>,
    pub abstract_text: Seq<char>,
    pub authors: Seq<Seq<char>>,
    pub url: Seq<char>,
}

pub open spec fn author_names(aus: Seq<Author>) -> Seq<Seq<char>> {
    Seq::new(aus.len(), |i: int| aus[i].name@)
}

pub open spec fn entry_view(e: Entry) -> EntryV {
    EntryV {
        title: e.title@,
        summary: e.summary@,
        id: e.id@,
        authors: author_names(e.author@),
    }
}

pub open spec fn entries_view(es: Seq<Entry>) -> Seq<EntryV> {
    Seq::new(es.len(), |i: int| entry_view(es[i]))
}

pub open spec fn feed_view(f: Feed) -> FeedV {
    FeedV {
        entry: match f.entry {
            Option::None => Option::None,
            Option::Some(es) => Option::Some(entries_view(es@)),
        },
    }
}

/// The entries a feed contributes to the output: none when the `entry`
/// field is absent.
pub open spec fn feed_entries(f: FeedV) -> Seq<EntryV> {
    match f.entry {
        Option::None => Seq::empty(),
        Option::Some(es) => es,
    }
}

pub open spec fn paper_view(p: Paper) -> PaperV {
    PaperV {
        title: p.title@,
        abstract_text: p.abstract_text@,
        authors: Seq::new(p.authors@.len(), |i: int| p.authors@[i]@),
        url: p.url@,
    }
}

pub open spec fn papers_view(ps: Seq<Paper>) -> Seq<PaperV> {
    Seq::new(ps.len(), |i: int| paper_view(ps[i]))
}

/// The paper a single entry normalizes to: title and summary trimmed,
/// authors kept in order, the identifier copied verbatim as the URL.
pub open spec fn paper_of(e: EntryV) -> PaperV {
    PaperV {
        title: trim_spec(e.title),
        abstract_text: trim_spec(e.summary),
        authors: e.authors,
        url: e.id,
    }
}

/// What normalization does to a sequence of entries: each entry maps to
/// its paper, in document order.
pub open spec fn normalize_entries(es: Seq<EntryV>) -> Seq<PaperV> {
    Seq::new(es.len(), |i: int| paper_of(es[i]))
}

/// Normalization is pointwise: the paper at each position depends only
/// on the entry at that position, so output order is exactly input
/// order.
pub proof fn lemma_normalize_pointwise(es: Seq<EntryV>)
    ensures
        normalize_entries(es).len() == es.len(),
        forall|k: int| 0 <= k < es.len() ==> normalize_entries(es)[k] == paper_of(es[k]),
{
}

/// Two feeds that differ only in entry order normalize to the same
/// papers, arranged by the same reordering: if `es2` lists the entries
/// of `es1` in the order given by the index map `perm`, then the papers
/// of `es2` are the papers of `es1` in that same order.
pub proof fn lemma_normalize_reorder(es1: Seq<EntryV>, es2: Seq<EntryV>, perm: Seq<int>)
    requires
        perm.len() == es1.len(),
        forall|i: int| 0 <= i < perm.len() ==> 0 <= #[trigger] perm[i] < es1.len(),
        es2 == Seq::new(es1.len(), |i: int| es1[perm[i]]),
    ensures
        normalize_entries(es2) == Seq::new(es1.len(), |i: int| normalize_entries(es1)[perm[i]]),
{
    assert(normalize_entries(es2) =~= Seq::new(
        es1.len(),
        |i: int| normalize_entries(es1)[perm[i]],
    ));
}

/// A feed whose `entry` element is absent, or present with zero
/// entries, normalizes to the empty paper sequence.
pub proof fn lemma_empty_feed(f: FeedV)
    requires
        f.entry is None || f.entry == Option::Some(Seq::<EntryV>::empty()),
    ensures
        normalize_entries(feed_entries(f)) == Seq::<PaperV>::empty(),
{
    assert(normalize_entries(feed_entries(f)) =~= Seq::<PaperV>::empty());
}

/// Normalizes a parsed feed: one paper per entry, in document order,
/// with trimmed title and summary, the author names in order, and the
/// identifier as the URL.
pub fn normalize_feed(feed: &Feed) -> (r: Vec<Paper>)
    ensures
        papers_view(r@) == normalize_entries(feed_entries(feed_view(*feed))),
{
    let mut papers: Vec<Paper> = Vec::new();
    match &feed.entry {
        Option::None => {
            proof {
                assert(papers_view(papers@) =~= normalize_entries(feed_entries(feed_view(*feed))));
            }
        },
        Option::Some(entries) => {
            let ghost evs = entries_view(entries@);
            let mut i: usize = 0;
            while i < entries.len()
                invariant
                    i <= entries.len(),
                    evs == entries_view(entries@),
                    papers@.len() == i,
                    forall|k: int|
                        0 <= k < i ==> paper_view(#[trigger] papers@[k]) == paper_of(evs[k]),
                decreases entries.len() - i,
            {
                let e = &entries[i];
                let title = trim_str(e.title.as_str());
                let abstract_text = trim_str(e.summary.as_str());
                let mut authors: Vec<String> = Vec::new();
                let mut j: usize = 0;
                while j < e.author.len()
                    invariant
                        j <= e.author.len(),
                        authors@.len() == j,
                        forall|m: int| 0 <= m < j ==> #[trigger] authors@[m]@ == e.author@[m].name@,
                    decreases e.author.len() - j,
                {
                    authors.push(e.author[j].name.clone());
                    j = j + 1;
                }
                let url = e.id.clone();
                let p = Paper { title, abstract_text, authors, url };
                proof {
                    assert(Seq::new(p.authors@.len(), |m: int| p.authors@[m]@) =~= author_names(
                        e.author@,
                    ));
                    assert(entry_view(entries@[i as int]) == evs[i as int]);
                    assert(paper_view(p) == paper_of(evs[i as int]));
                }
                papers.push(p);
                i = i + 1;
            }
            proof {
                assert(papers_view(papers@) =~= normalize_entries(feed_entries(feed_view(*feed))));
            }
        },
    }
    papers
}

/// Parses a feed document into its wire shape: `entry` is `None` when
/// the document holds no entries, `Some` of them in document order
/// otherwise. A document that does not parse is a `MalformedFeed`
/// failure.
pub fn parse_feed_doc(xml: &str) -> (r: Result<Feed, SearchError>)
    ensures
        match r {
            Ok(f) => {
                &&& crate::parse::parse_doc(xml@) is Some
                &&& feed_view(f).entry == (if crate::parse::parse_doc(xml@).unwrap().len() == 0 {
                    Option::<Seq<EntryV>>::None
                } else {
                    Option::Some(crate::parse::parse_doc(xml@).unwrap())
                })
            },
            Err(e) => crate::parse::parse_doc(xml@) is None && e is MalformedFeed,
        },
{
    let cs = crate::scan::str_to_chars(xml);
    match crate::parse::e_parse_doc(&cs) {
        Option::None => Err(SearchError::MalformedFeed),
        Option::Some(es) => {
            if es.len() == 0 {
                proof {
                    assert(entries_view(es@) =~= Seq::<EntryV>::empty());
                }
                Ok(Feed { entry: Option::None })
            } else {
                Ok(Feed { entry: Option::Some(es) })
            }
        },
    }
}

/// Normalizes a raw feed document into paper records: parses it and
/// maps each entry, in document order, to its paper. Exactly the
/// documents the grammar rejects yield a `MalformedFeed` error; a
/// parseable document without entries yields the empty list.
pub fn parse_feed(xml: &str) -> (r: Result<Vec<Paper>, SearchError>)
    ensures
        match r {
            Ok(papers) => {
                &&& crate::parse::parse_doc(xml@) is Some
                &&& papers_view(papers@) == normalize_entries(
                    crate::parse::parse_doc(xml@).unwrap(),
                )
            },
            Err(e) => crate::parse::parse_doc(xml@) is None && e is MalformedFeed,
        },
{
    match parse_feed_doc(xml) {
        Err(e) => Err(e),
        Ok(feed) => {
            let papers = normalize_feed(&feed);
            proof {
                if feed_view(feed).entry is None {
                    assert(feed_entries(feed_view(feed)) =~= crate::parse::parse_doc(
                        xml@,
                    ).unwrap());
                }
            }
            Ok(papers)
        },
    }
}

} // verus!
