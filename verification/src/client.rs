use vstd::prelude::*;
use vstd::string::StringExecFns;

use crate::bencode::bytes_eq;
use crate::tracker::{decimal_text, push_decimal_text};

verus! {

/// One torrent a front end is downloading, with whatever keeps the download
/// alive (`H`): dropping it stops the download.
pub struct Entry<H> {
    pub name: String,
    /// Identifies the torrent rather than the file it came from, so the same
    /// content added twice from two different `.torrent` files is caught.
    pub info_hash: [u8; 20],
    pub handle: H,
}

/// The downloads a front end shows, and the last thing that went wrong.
pub struct Client<H> {
    pub downloads: Vec<Entry<H>>,
    pub error: Option<String>,
}

/// Whether a torrent with this info hash is among the downloads.
pub open spec fn listed<H>(downloads: Seq<Entry<H>>, info_hash: Seq<u8>) -> bool {
    exists|i: int| 0 <= i < downloads.len() && (#[trigger] downloads[i]).info_hash@ == info_hash
}

/// The message for a torrent that is already downloading.
pub open spec fn already_downloading(name: Seq<char>) -> Seq<char> {
    name + " is already downloading"@
}

/// The window title: the name of the one download, or how many there are.
pub open spec fn spec_title<H>(downloads: Seq<Entry<H>>) -> Seq<char> {
    if downloads.len() == 0 {
        "dhaar"@
    } else if downloads.len() == 1 {
        downloads[0].name@ + " \u{2014} dhaar"@
    } else {
        decimal_text(downloads.len()) + " downloads \u{2014} dhaar"@
    }
}

impl<H> Client<H> {
    /// Nothing downloading, nothing gone wrong.
    pub fn new() -> (r: Self)
        ensures
            r.downloads@.len() == 0,
            r.error is None,
    {
        Client { downloads: Vec::new(), error: None }
    }

    /// Whether a torrent may be added: not when one with the same info hash
    /// is already downloading, in which case the error says so. Nothing else
    /// changes.
    pub fn may_add(&mut self, name: &str, info_hash: &[u8; 20]) -> (r: bool)
        ensures
            r == !listed(old(self).downloads@, info_hash@),
            final(self).downloads@ == old(self).downloads@,
            r ==> final(self).error == old(self).error,
            !r ==> (final(self).error matches Some(e) && e@ == already_downloading(name@)),
    {
        let mut k: usize = 0;
        while k < self.downloads.len()
            invariant
                k <= self.downloads@.len(),
                self.downloads@ == old(self).downloads@,
                self.error == old(self).error,
                forall|i: int| 0 <= i < k ==> (#[trigger] self.downloads@[i]).info_hash@ != info_hash@,
            decreases self.downloads@.len() - k,
        {
            if bytes_eq(self.downloads[k].info_hash.as_slice(), info_hash.as_slice()) {
                let mut message = name.to_owned();
                message.append(" is already downloading");
                self.error = Some(message);
                return false;
            }
            k = k + 1;
        }
        true
    }

    /// Takes on a download that was let in and started, and clears the
    /// error.
    pub fn push(&mut self, entry: Entry<H>)
        ensures
            final(self).downloads@ == old(self).downloads@.push(entry),
            final(self).error is None,
    {
        self.downloads.push(entry);
        self.error = None;
    }

    /// Takes a download out, handing it back so that it is dropped where its
    /// tasks run. An index past the end changes nothing.
    pub fn remove(&mut self, index: usize) -> (r: Option<Entry<H>>)
        ensures
            index < old(self).downloads@.len() ==> (r matches Some(e) && e == old(self).downloads@[index as int]
                && final(self).downloads@ == old(self).downloads@.remove(index as int)),
            index >= old(self).downloads@.len() ==> r is None && final(self).downloads@ == old(self).downloads@,
            final(self).error == old(self).error,
    {
        if index >= self.downloads.len() {
            return None;
        }
        Some(self.downloads.remove(index))
    }

    /// The window title.
    pub fn title(&self) -> (r: String)
        ensures
            r@ == spec_title(self.downloads@),
    {
        let count = self.downloads.len();
        if count == 0 {
            "dhaar".to_owned()
        } else if count == 1 {
            let mut t = self.downloads[0].name.clone();
            t.append(" \u{2014} dhaar");
            t
        } else {
            let mut t = String::new();
            push_decimal_text(&mut t, count as u64);
            t.append(" downloads \u{2014} dhaar");
            proof {
                assert(t@ =~= decimal_text(count as nat) + " downloads \u{2014} dhaar"@);
            }
            t
        }
    }
}

/// No torrent is downloading twice.
pub open spec fn hashes_distinct<H>(downloads: Seq<Entry<H>>) -> bool {
    forall|i: int, j: int|
        0 <= i < j < downloads.len() ==> (#[trigger] downloads[i]).info_hash@ != (#[trigger] downloads[j]).info_hash@
}

/// Adding only what [`Client::may_add`] lets in keeps every torrent
/// downloading once, and the torrent just added is then refused a second
/// time, whichever file it comes from.
pub proof fn law_adding_keeps_torrents_distinct<H>(downloads: Seq<Entry<H>>, entry: Entry<H>)
    requires
        hashes_distinct(downloads),
        !listed(downloads, entry.info_hash@),
    ensures
        hashes_distinct(downloads.push(entry)),
        listed(downloads.push(entry), entry.info_hash@),
{
    let d = downloads.push(entry);
    assert(d[downloads.len() as int] == entry);
    assert forall|i: int, j: int| 0 <= i < j < d.len() implies (#[trigger] d[i]).info_hash@ != (
    #[trigger] d[j]).info_hash@ by {
        assert(d[i] == downloads[i]);
        if j < downloads.len() {
            assert(d[j] == downloads[j]);
        } else {
            assert(d[j] == entry);
        }
    }
}

/// Taking a download out keeps the rest downloading once each.
pub proof fn law_removing_keeps_torrents_distinct<H>(downloads: Seq<Entry<H>>, index: int)
    requires
        hashes_distinct(downloads),
        0 <= index < downloads.len(),
    ensures
        hashes_distinct(downloads.remove(index)),
{
    let d = downloads.remove(index);
    assert forall|i: int, j: int| 0 <= i < j < d.len() implies (#[trigger] d[i]).info_hash@ != (
    #[trigger] d[j]).info_hash@ by {
        let si = if i < index { i } else { i + 1 };
        let sj = if j < index { j } else { j + 1 };
        assert(d[i] == downloads[si]);
        assert(d[j] == downloads[sj]);
    }
}

} // verus!
