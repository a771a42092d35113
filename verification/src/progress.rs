//! Reports on work that takes long.

use vstd::prelude::*;
use vstd::string::StringExecFns;

use crate::text::{chars_of, decimal, decimal_text, to_uppercase, uppercase_form};

verus! {

/// `s` with another beginning in place of its first character.
pub open spec fn with_head(head: Seq<char>, s: Seq<char>) -> Seq<char> {
    head + s.skip(1)
}

/// `s` with another beginning in place of its first character.
pub fn replace_head(head: &str, s: &str) -> (r: String)
    requires
        s@.len() > 0,
    ensures
        r@ == with_head(head@, s@),
{
    let mut r: String = head.to_string();
    let chars: Vec<char> = chars_of(s);
    let mut i: usize = 1;
    assert(r@ =~= head@ + s@.subrange(1, 1));
    while i < chars.len()
        invariant
            1 <= i <= chars.len(),
            chars@ == s@,
            r@ == head@ + s@.subrange(1, i as int),
        decreases chars.len() - i,
    {
        r.push(chars[i]);
        i = i + 1;
        assert(r@ =~= head@ + s@.subrange(1, i as int));
    }
    assert(s@.subrange(1, i as int) =~= s@.skip(1));
    r
}

/// A text with its first character in upper case.
pub open spec fn capitalized(s: Seq<char>) -> Seq<char> {
    if s.len() == 0 {
        s
    } else {
        with_head(uppercase_form(s[0]), s)
    }
}

/// A text with its first character in upper case.
pub fn capitalize(s: &str) -> (r: String)
    ensures
        r@ == capitalized(s@),
        r@.len() >= s@.len(),
{
    let chars: Vec<char> = chars_of(s);
    if chars.len() == 0 {
        String::new()
    } else {
        replace_head(to_uppercase(chars[0]).as_str(), s)
    }
}

/// Whether an upper case form begins with a character that is its own upper case form.
pub open spec fn is_settled(form: Seq<char>) -> bool {
    form.len() > 0 && uppercase_form(form[0]) == seq![form[0]]
}

/// Where the upper case form of the first character is settled, a text with that character in upper
/// case stays as it is. Everything behind the first character is never changed.
pub proof fn lemma_capitalized_again(s: Seq<char>)
    ensures
        s.len() > 0 ==> capitalized(s).len() == uppercase_form(s[0]).len() + s.len() - 1,
        s.len() > 0 ==> capitalized(s).skip(uppercase_form(s[0]).len() as int) == s.skip(1),
        s.len() > 0 && is_settled(uppercase_form(s[0])) ==> capitalized(capitalized(s))
            == capitalized(s),
{
    if s.len() > 0 {
        let form = uppercase_form(s[0]);
        let once = capitalized(s);
        assert(once.skip(form.len() as int) =~= s.skip(1));
        if is_settled(form) {
            assert(once[0] == form[0]);
            assert(capitalized(once) =~= once);
        }
    }
}

/// How many bytes a mebibyte has.
pub const MIB: u64 = 1_048_576;

/// The report on counted work.
pub open spec fn count_report(
    heading: Seq<char>,
    label: Seq<char>,
    done: nat,
    total: nat,
) -> Seq<char> {
    "[map] "@ + heading + "... "@ + decimal(done) + "/"@ + decimal(total) + " "@ + label + " ("@
        + decimal(done * 100 / total) + "%)"@
}

/// The report on counted work, under a heading.
pub fn count_line(heading: &str, label: &str, done: u64, total: u64) -> (r: String)
    requires
        done * 100 <= u64::MAX,
        total > 0,
    ensures
        r@ == count_report(heading@, label@, done as nat, total as nat),
{
    let mut r: String = "[map] ".to_string();
    r.append(heading);
    r.append("... ");
    r.append(decimal_text(done).as_str());
    r.append("/");
    r.append(decimal_text(total).as_str());
    r.append(" ");
    r.append(label);
    r.append(" (");
    r.append(decimal_text(done * 100 / total).as_str());
    r.append("%)");
    r
}

/// Reports on counted work, line by line, for where nothing can be drawn in place.
#[derive(Debug)]
pub struct CountProgress {
    pub total: u64,
    pub label: String,
    /// A line comes after each so many items.
    pub log_interval: u64,
    /// How many items are done.
    pub counter: u64,
}

/// Reports on counted work.
pub fn make_count_bar(len: u64, item_label: &str, log_interval: u64) -> (r: CountProgress)
    ensures
        r.total == len,
        r.label@ == item_label@,
        r.log_interval == log_interval,
        r.counter == 0,
{
    CountProgress { total: len, label: item_label.to_string(), log_interval, counter: 0 }
}

impl CountProgress {
    /// Whether a line comes after so many items.
    pub open spec fn reports_at(self, done: int) -> bool {
        done % (self.log_interval as int) == 0 || done == self.total
    }

    /// Whether one item more can be counted and reported.
    pub open spec fn can_count(self) -> bool {
        &&& self.counter < u64::MAX
        &&& self.log_interval > 0
        &&& self.reports_at(self.counter + 1) ==> self.total > 0 && (self.counter + 1) * 100
            <= u64::MAX
    }

    /// Counts one item, and says what is to be reported.
    pub fn inc(&mut self) -> (r: Option<String>)
        requires
            old(self).can_count(),
        ensures
            *final(self) == (CountProgress {
                counter: (old(self).counter + 1) as u64,
                ..*old(self)
            }),
            r is Some <==> old(self).reports_at(old(self).counter + 1),
            r matches Some(line) ==> line@ == count_report(
                capitalized(old(self).label@),
                old(self).label@,
                (old(self).counter + 1) as nat,
                old(self).total as nat,
            ),
    {
        self.counter = self.counter + 1;
        let done: u64 = self.counter;
        if done % self.log_interval == 0 || done == self.total {
            let heading: String = capitalize(self.label.as_str());
            assert(heading@ =~= capitalized(self.label@));
            Some(count_line(heading.as_str(), self.label.as_str(), done, self.total))
        } else {
            None
        }
    }

    /// Whether one item more can be counted and reported.
    pub fn is_countable(&self) -> (r: bool)
        ensures
            r == self.can_count(),
    {
        if self.counter == u64::MAX || self.log_interval == 0 {
            return false;
        }
        let done: u64 = self.counter + 1;
        !(done % self.log_interval == 0 || done == self.total) || self.total > 0 && done
            <= u64::MAX / 100
    }
}

/// The template of a bar for counted work.
pub fn count_template(item_label: &str) -> (r: String)
    ensures
        r@ == "[map] [{bar:50.yellow/white}] {pos}/{len} "@ + item_label@
            + " ({percent}%, eta {eta})"@,
{
    let mut r: String = "[map] [{bar:50.yellow/white}] {pos}/{len} ".to_string();
    r.append(item_label);
    r.append(" ({percent}%, eta {eta})");
    r
}

/// The report on a download.
pub open spec fn download_report(received: nat, total: Option<u64>) -> Seq<char> {
    match total {
        Some(t) => "[map] Downloading... "@ + decimal(received / MIB as nat) + " MiB / "@ + decimal(
            t as nat / MIB as nat,
        ) + " MiB ("@ + decimal(received * 100 / t as nat) + "%)"@,
        None => "[map] Downloading... "@ + decimal(received / MIB as nat) + " MiB"@,
    }
}

/// Reports on a download, line by line, for where nothing can be drawn in place.
#[derive(Debug)]
pub struct DownloadProgress {
    /// How many bytes are expected, if that is known.
    pub total: Option<u64>,
    /// A line comes with each so many bytes.
    pub log_interval_bytes: u64,
    /// The last boundary that was reported.
    pub logged_threshold: u64,
}

/// Reports on a download.
pub fn make_download_bar(total: Option<u64>, log_interval_bytes: u64) -> (r: DownloadProgress)
    ensures
        r == (DownloadProgress { total, log_interval_bytes, logged_threshold: 0 }),
{
    DownloadProgress { total, log_interval_bytes, logged_threshold: 0 }
}

impl DownloadProgress {
    /// Whether the next boundary has been crossed.
    pub open spec fn crossed(self, received: u64) -> bool {
        received >= self.logged_threshold + self.log_interval_bytes
    }

    /// Whether so many bytes can be reported.
    pub open spec fn can_report(self, received: u64) -> bool {
        &&& self.logged_threshold + self.log_interval_bytes <= u64::MAX
        &&& self.crossed(received) ==> {
            &&& self.log_interval_bytes > 0
            &&& self.total matches Some(t) ==> t > 0 && received * 100 <= u64::MAX
        }
    }

    /// The last boundary that so many bytes have crossed.
    pub open spec fn boundary(self, received: u64) -> u64 {
        (received as int / self.log_interval_bytes as int * self.log_interval_bytes) as u64
    }

    /// Takes in how many bytes there are, and says what is to be reported: a line each time the
    /// next boundary is crossed.
    pub fn set_position(&mut self, bytes_received: u64) -> (r: Option<String>)
        requires
            old(self).can_report(bytes_received),
        ensures
            r is Some <==> old(self).crossed(bytes_received),
            r matches Some(line) ==> line@ == download_report(
                bytes_received as nat,
                old(self).total,
            ),
            *final(self) == if old(self).crossed(bytes_received) {
                DownloadProgress {
                    logged_threshold: old(self).boundary(bytes_received),
                    ..*old(self)
                }
            } else {
                *old(self)
            },
    {
        if bytes_received < self.logged_threshold + self.log_interval_bytes {
            return None;
        }
        let n: u64 = self.log_interval_bytes;
        proof {
            assert(0 <= bytes_received as int / n as int * n <= bytes_received) by (nonlinear_arith)
                requires
                    n > 0,
                    bytes_received >= 0,
            ;
        }
        self.logged_threshold = bytes_received / n * n;
        let mut line: String = "[map] Downloading... ".to_string();
        line.append(decimal_text(bytes_received / MIB).as_str());
        if let Some(t) = self.total {
            line.append(" MiB / ");
            line.append(decimal_text(t / MIB).as_str());
            line.append(" MiB (");
            line.append(decimal_text(bytes_received * 100 / t).as_str());
            line.append("%)");
        } else {
            line.append(" MiB");
        }
        Some(line)
    }

    /// Whether so many bytes can be reported.
    pub fn is_reportable(&self, received: u64) -> (r: bool)
        ensures
            r == self.can_report(received),
    {
        if self.logged_threshold > u64::MAX - self.log_interval_bytes {
            return false;
        }
        if received < self.logged_threshold + self.log_interval_bytes {
            return true;
        }
        if self.log_interval_bytes == 0 {
            return false;
        }
        match self.total {
            Some(t) => t > 0 && received <= u64::MAX / 100,
            None => true,
        }
    }
}

/// No stretch between two boundaries is reported twice: after a line, the next one comes only with
/// bytes beyond the next boundary.
pub proof fn lemma_reported_once(progress: DownloadProgress, received: u64, later: u64)
    requires
        progress.can_report(received),
        progress.crossed(received),
        received <= later,
    ensures
        ({
            let after = DownloadProgress {
                logged_threshold: progress.boundary(received),
                ..progress
            };
            let n = progress.log_interval_bytes as int;
            &&& after.logged_threshold <= received
            &&& received < after.logged_threshold + n
            &&& after.crossed(later) <==> later as int / n > received as int / n
        }),
{
    let n = progress.log_interval_bytes as int;
    let q = received as int / n;
    let p = later as int / n;
    assert(q * n <= received < q * n + n) by (nonlinear_arith)
        requires
            n > 0,
            q == received as int / n,
    ;
    assert(p * n <= later < p * n + n) by (nonlinear_arith)
        requires
            n > 0,
            p == later as int / n,
    ;
    assert(0 <= q * n) by (nonlinear_arith)
        requires
            n > 0,
            q == received as int / n,
            received >= 0,
    ;
    if p > q {
        assert(p * n >= q * n + n) by (nonlinear_arith)
            requires
                p >= q + 1,
                n > 0,
        ;
    } else {
        assert(p * n + n <= q * n + n) by (nonlinear_arith)
            requires
                p <= q,
                n > 0,
        ;
    }
}

} // verus!
