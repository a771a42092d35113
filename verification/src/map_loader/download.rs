//! When the outlines of land have to be downloaded again.

use vstd::prelude::*;

use crate::text::same_text;

verus! {

/// A text without whitespace at its ends.
pub uninterp spec fn trimmed(s: Seq<char>) -> Seq<char>;

/// `str::trim`, which takes leading and trailing whitespace off by the Unicode tables.
#[verifier::external_body]
fn trim(s: &str) -> (r: String)
    ensures
        r@ == trimmed(s@),
{
    s.trim().to_string()
}

/// Where the archive is to come from.
#[derive(Debug, Clone, Copy, PartialEq, Eq, Structural)]
pub enum Source {
    Cache,
    Network,
}

/// Whether an archive is still good: the server gave a tag, and it is the one that was stored.
pub open spec fn still_good(stored: Option<Seq<char>>, remote: Option<Seq<char>>) -> bool {
    remote is Some && stored == remote
}

/// A text that may be missing, without whitespace at its ends.
pub open spec fn trimmed_tag(tag: Option<String>) -> Option<Seq<char>> {
    match tag {
        Some(s) => Some(trimmed(s@)),
        None => None,
    }
}

/// A text that may be missing.
pub open spec fn tag_text(tag: Option<String>) -> Option<Seq<char>> {
    match tag {
        Some(s) => Some(s@),
        None => None,
    }
}

/// Where the archive is to come from, by tags without whitespace at their ends: the cache if the
/// file is there and the tag that was stored with it is that of the server.
pub fn choose_source(zip_exists: bool, stored: &Option<String>, remote: &Option<String>) -> (r:
    Source)
    ensures
        r == Source::Cache <==> zip_exists && still_good(tag_text(*stored), tag_text(*remote)),
{
    if !zip_exists {
        return Source::Network;
    }
    match (stored, remote) {
        (_, None) => Source::Network,
        (Some(a), Some(b)) => if same_text(a.as_str(), b.as_str()) {
            Source::Cache
        } else {
            Source::Network
        },
        (None, Some(_)) => Source::Network,
    }
}

/// A text that may be missing, without whitespace at its ends.
fn trim_tag(tag: &Option<String>) -> (r: Option<String>)
    ensures
        tag_text(r) == trimmed_tag(*tag),
{
    match tag {
        Some(s) => Some(trim(s.as_str())),
        None => None,
    }
}

/// Where the archive is to come from: the cache if the file is there and the tag that was stored
/// with it is that of the server, both without whitespace at their ends.
pub fn load_from_cache(zip_exists: bool, stored: &Option<String>, remote: &Option<String>) -> (r:
    Source)
    ensures
        r == Source::Cache <==> zip_exists && still_good(
            trimmed_tag(*stored),
            trimmed_tag(*remote),
        ),
{
    choose_source(zip_exists, &trim_tag(stored), &trim_tag(remote))
}

/// What is stored beside an archive that was downloaded: the tag, if the server gave one and the
/// archive itself could be written.
pub fn save_to_cache(zip_written: bool, remote: &Option<String>) -> (r: Option<String>)
    ensures
        r == if zip_written {
            *remote
        } else {
            None
        },
{
    if !zip_written {
        return None;
    }
    match remote {
        Some(tag) => Some(tag.clone()),
        None => None,
    }
}

/// What was stored is good as long as the server gives the same tag, and never without one.
pub proof fn lemma_saved_is_good(tag: String, stored: Option<String>)
    ensures
        still_good(trimmed_tag(Some(tag)), trimmed_tag(Some(tag))),
        !still_good(trimmed_tag(stored), trimmed_tag(None)),
{
}

/// Nothing is good once the server gives another tag, nor where no tag was stored; whitespace at
/// the ends of a tag makes no difference.
pub proof fn lemma_other_tags_are_not_good(stored: String, remote: String)
    ensures
        still_good(trimmed_tag(Some(stored)), trimmed_tag(Some(remote))) <==> trimmed(stored@)
            == trimmed(remote@),
        !still_good(trimmed_tag(None), trimmed_tag(Some(remote))),
{
}

} // verus!
