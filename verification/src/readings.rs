//! Texts and lists against what they stand for.

use vstd::arithmetic::div_mod::{lemma_fundamental_div_mod, lemma_fundamental_div_mod_converse};
use vstd::arithmetic::power2::{lemma2_to64, lemma_pow2_pos, pow2};
use vstd::prelude::*;

use crate::admin::{anchor_row, anchor_rows, escaped, on_tile, AnchorLatLon, StoredAnchor};
use crate::client::version::{compatible, is_update, tag_version, ReleaseView};
use crate::coords::tile_of;
use crate::float::error::lemma_exact;
use crate::float::exact::apart;
use crate::float::laws::lemma_zero;
use crate::float::model::Format;
use crate::float::F32;
use crate::progress::{count_report, download_report, CountProgress, MIB};
use crate::server::anchorings::{all_readable, readable_points, AnchorRow};
use crate::text::{decimal, replaced, signed_decimal};

verus! {

/// The number that some decimal digits stand for.
pub open spec fn number(digits: Seq<char>) -> int
    decreases digits.len(),
{
    if digits.len() == 0 {
        0
    } else {
        number(digits.drop_last()) * 10 + (digits.last() as int - '0' as int)
    }
}

/// Whether a text is a number in decimal digits without needless zeros in front.
pub open spec fn is_number(digits: Seq<char>) -> bool {
    &&& digits.len() >= 1
    &&& forall|i: int| 0 <= i < digits.len() ==> '0' <= #[trigger] digits[i] <= '9'
    &&& digits.len() >= 2 ==> digits[0] != '0'
}

/// A number is written in decimal digits that stand for it.
pub proof fn lemma_numbers_read_back(n: nat)
    ensures
        is_number(decimal(n)),
        number(decimal(n)) == n,
        n > 0 ==> decimal(n)[0] != '0',
    decreases n,
{
    let s = decimal(n);
    if n < 10 {
        assert(s.drop_last() =~= Seq::<char>::empty());
        assert(number(s.drop_last()) == 0);
    } else {
        lemma_numbers_read_back(n / 10);
        let head = decimal(n / 10);
        assert(s.drop_last() =~= head);
        assert forall|i: int| 0 <= i < s.len() implies '0' <= #[trigger] s[i] <= '9' by {
            if i < head.len() {
                assert(s[i] == head[i]);
            }
        }
        assert(s[0] == head[0]);
    }
}

/// Numbers below zero have a minus in front.
pub proof fn lemma_signed_numbers_read_back(n: int)
    ensures
        n >= 0 ==> is_number(signed_decimal(n)) && number(signed_decimal(n)) == n,
        n < 0 ==> signed_decimal(n)[0] == '-' && is_number(signed_decimal(n).skip(1)) && number(
            signed_decimal(n).skip(1),
        ) == -n,
{
    if n >= 0 {
        lemma_numbers_read_back(n as nat);
    } else {
        lemma_numbers_read_back((-n) as nat);
        reveal_strlit("-");
        assert(signed_decimal(n).skip(1) =~= decimal((-n) as nat));
    }
}

/// Whether a text stands in another at a place.
pub open spec fn occurs_at(s: Seq<char>, pat: Seq<char>, i: int) -> bool {
    0 <= i && i + pat.len() <= s.len() && s.subrange(i, i + pat.len()) == pat
}

/// Where nothing is to be replaced, a text stays as it is.
pub proof fn lemma_nothing_to_replace(s: Seq<char>, pat: Seq<char>, with: Seq<char>)
    requires
        forall|i: int| !occurs_at(s, pat, i),
    ensures
        replaced(s, pat, with) == s,
    decreases s.len(),
{
    if pat.len() > 0 && s.len() >= pat.len() {
        assert(!occurs_at(s, pat, 0));
        assert(s.subrange(0, pat.len() as int) =~= s.take(pat.len() as int));
        let rest = s.skip(1);
        assert forall|i: int| !occurs_at(rest, pat, i) by {
            if occurs_at(rest, pat, i) {
                assert(s.subrange(i + 1, i + 1 + pat.len()) =~= rest.subrange(i, i + pat.len()));
                assert(occurs_at(s, pat, i + 1));
            }
        }
        lemma_nothing_to_replace(rest, pat, with);
        assert(seq![s[0]] + rest =~= s);
    }
}

/// The first place where a text stands is replaced, what is before it stays, and what follows it is
/// treated in the same way.
pub proof fn lemma_first_is_replaced(s: Seq<char>, pat: Seq<char>, with: Seq<char>, i: int)
    requires
        pat.len() > 0,
        occurs_at(s, pat, i),
        forall|j: int| 0 <= j < i ==> !occurs_at(s, pat, j),
    ensures
        replaced(s, pat, with) == s.take(i) + with + replaced(s.skip(i + pat.len()), pat, with),
    decreases i,
{
    assert(s.subrange(0, pat.len() as int) =~= s.take(pat.len() as int));
    if i == 0 {
        assert(s.take(0) + with =~= with);
    } else {
        assert(!occurs_at(s, pat, 0));
        let rest = s.skip(1);
        assert(rest.subrange(i - 1, i - 1 + pat.len()) =~= s.subrange(i, i + pat.len()));
        assert forall|j: int| 0 <= j < i - 1 implies !occurs_at(rest, pat, j) by {
            if occurs_at(rest, pat, j) {
                assert(s.subrange(j + 1, j + 1 + pat.len()) =~= rest.subrange(j, j + pat.len()));
                assert(occurs_at(s, pat, j + 1));
            }
        }
        lemma_first_is_replaced(rest, pat, with, i - 1);
        assert(rest.skip(i - 1 + pat.len()) =~= s.skip(i + pat.len()));
        assert(seq![s[0]] + rest.take(i - 1) =~= s.take(i));
        let tail = replaced(s.skip(i + pat.len()), pat, with);
        assert(seq![s[0]] + (rest.take(i - 1) + with + tail) =~= s.take(i) + with + tail);
    }
}

/// A text is written in a page piece by piece.
pub proof fn lemma_escaped_piece_by_piece(a: Seq<char>, b: Seq<char>)
    ensures
        escaped(a + b) == escaped(a) + escaped(b),
    decreases b.len(),
{
    if b.len() == 0 {
        assert(a + b =~= a);
        assert(escaped(a) + escaped(b) =~= escaped(a));
    } else {
        let s = a + b;
        assert(s.drop_last() =~= a + b.drop_last());
        assert(s.last() == b.last());
        lemma_escaped_piece_by_piece(a, b.drop_last());
        assert(escaped(s) =~= escaped(a) + escaped(b));
    }
}

/// Of single characters, the four that mean something in a page are written by their names and all
/// others as they are.
pub proof fn lemma_escaped_characters(c: char)
    ensures
        escaped(seq![c]) == match c {
            '&' => seq!['&', 'a', 'm', 'p', ';'],
            '<' => seq!['&', 'l', 't', ';'],
            '>' => seq!['&', 'g', 't', ';'],
            '"' => seq!['&', 'q', 'u', 'o', 't', ';'],
            _ => seq![c],
        },
{
    reveal_strlit("&amp;");
    reveal_strlit("&lt;");
    reveal_strlit("&gt;");
    reveal_strlit("&quot;");
    let s = seq![c];
    assert(s.drop_last() =~= Seq::<char>::empty());
    assert(s.last() == c);
    assert(escaped(s.drop_last()) =~= Seq::<char>::empty());
    assert(escaped(s) =~= match c {
        '&' => seq!['&', 'a', 'm', 'p', ';'],
        '<' => seq!['&', 'l', 't', ';'],
        '>' => seq!['&', 'g', 't', ';'],
        '"' => seq!['&', 'q', 'u', 'o', 't', ';'],
        _ => seq![c],
    });
}

/// An anchor point on the globe is stored on the tile that is nearest to where it lies in
/// tile-space, with its name and note.
pub proof fn lemma_stored_on_nearest_tile(a: AnchorLatLon)
    requires
        ({
            let (x, y) = tile_of(a.lat, a.lon);
            &&& x.is_finite_number() && 0 <= x.exact() <= 0x10_0000 * pow2(149)
            &&& y.is_finite_number() && 0 <= y.exact() <= 0x10_0000 * pow2(149)
        }),
    ensures
        ({
            let (x, y) = tile_of(a.lat, a.lon);
            &&& 2 * apart(on_tile(a).x * pow2(149), x.exact()) <= pow2(149)
            &&& 2 * apart(on_tile(a).y * pow2(149), y.exact()) <= pow2(149)
            &&& on_tile(a).name == a.name
            &&& on_tile(a).note == a.note
        }),
{
    let (x, y) = tile_of(a.lat, a.lon);
    lemma_nearest_tile(x);
    lemma_nearest_tile(y);
}

/// The nearest tile.
proof fn lemma_nearest_tile(v: F32)
    requires
        v.is_finite_number(),
        0 <= v.exact() <= 0x10_0000 * pow2(149),
    ensures
        v.nearest_whole().trunc(u32::MAX as nat) <= u32::MAX,
        2 * apart((v.nearest_whole().trunc(u32::MAX as nat) * pow2(149)) as int, v.exact()) <= pow2(
            149,
        ),
{
    let f = Format::Single;
    let unit = pow2(149);
    lemma2_to64();
    lemma_zero(f);
    lemma_pow2_pos(149);
    let m = v.parts().magnitude(f);
    assert(m == v.exact());
    let k = (2 * m + unit) / (2 * unit);
    lemma_fundamental_div_mod((2 * m + unit) as int, (2 * unit) as int);
    vstd::arithmetic::div_mod::lemma_mod_bound((2 * m + unit) as int, (2 * unit) as int);
    assert((2 * unit) * k == 2 * (k * unit)) by (nonlinear_arith);
    assert(k <= 0x10_0001) by (nonlinear_arith)
        requires
            2 * (k * unit) <= 2 * m + unit,
            m <= 0x10_0000 * unit,
            unit > 0,
    ;
    lemma_exact(f, k, 149);
    lemma_fundamental_div_mod_converse((k * unit) as int, unit as int, k as int, 0);
    if v.parts().neg {
        assert(m == 0);
        lemma_fundamental_div_mod_converse(unit as int, (2 * unit) as int, 0, unit as int);
        assert(k == 0);
    }
}

/// Where the numbers of two releases differ, the one with the higher ones, read from the left, is one
/// to update to; what is no release is none. Where the own version is not known, any release with a
/// number above zero is.
pub proof fn lemma_updates_are_higher(latest: ReleaseView, own: ReleaseView)
    ensures
        latest.major > own.major ==> is_update(Some(latest), Some(own)),
        latest.major < own.major ==> !is_update(Some(latest), Some(own)),
        latest.major == own.major && latest.minor > own.minor ==> is_update(
            Some(latest),
            Some(own),
        ),
        latest.major == own.major && latest.minor < own.minor ==> !is_update(
            Some(latest),
            Some(own),
        ),
        latest.major == own.major && latest.minor == own.minor && latest.patch > own.patch
            ==> is_update(Some(latest), Some(own)),
        latest.major == own.major && latest.minor == own.minor && latest.patch < own.patch
            ==> !is_update(Some(latest), Some(own)),
        !is_update(None, Some(own)),
        !compatible(None, Some(own)),
        latest.major > 0 || latest.minor > 0 || latest.patch > 0 ==> is_update(Some(latest), None),
        compatible(Some(latest), Some(own)) <==> latest.major == own.major && latest.minor
            == own.minor,
{
}

/// The letters `v` in front of a tag do not count, and nothing else is left out.
pub proof fn lemma_tags_name_versions(tag: Seq<char>)
    ensures
        tag_version(seq!['v'] + tag) == tag_version(tag),
        tag.len() > 0 && tag[0] != 'v' ==> tag_version(tag) == tag,
        tag.len() == 0 ==> tag_version(tag) == tag,
{
    assert((seq!['v'] + tag).drop_first() =~= tag);
}

/// Counted work is reported after every interval and at its end, there with a hundred percent, and
/// never in between.
pub proof fn lemma_count_is_reported(p: CountProgress, k: int, done: int)
    requires
        p.log_interval > 0,
    ensures
        p.reports_at(k * p.log_interval),
        p.reports_at(p.total as int),
        p.total > 0 ==> p.total * 100 / (p.total as int) == 100,
        p.reports_at(done) && done != p.total ==> exists|j: int| done == #[trigger] (j
            * p.log_interval),
{
    let n = p.log_interval as int;
    lemma_fundamental_div_mod_converse(k * n, n, k, 0);
    if p.total > 0 {
        let t = p.total as int;
        lemma_fundamental_div_mod_converse(t * 100, t, 100, 0);
    }
    if p.reports_at(done) && done != p.total {
        lemma_fundamental_div_mod(done, n);
        assert((done / n) * n == n * (done / n)) by (nonlinear_arith);
        assert(done == (done / n) * p.log_interval);
    }
}

/// Whether digits stand for how many whole parts of a size fit into an amount.
pub open spec fn whole_parts(digits: Seq<char>, amount: nat, part: nat) -> bool {
    is_number(digits) && number(digits) * part <= amount < (number(digits) + 1) * part
}

/// Whether digits stand for how many whole hundredths of `all` there are in `some`.
pub open spec fn percent(digits: Seq<char>, some: nat, all: nat) -> bool {
    whole_parts(digits, 100 * some, all)
}

/// Whether digits stand for how many whole mebibytes there are in some bytes.
pub open spec fn mebibytes(digits: Seq<char>, bytes: nat) -> bool {
    whole_parts(digits, bytes, 1024 * 1024)
}

proof fn lemma_whole_parts(amount: nat, part: nat)
    requires
        part > 0,
    ensures
        whole_parts(decimal(amount / part), amount, part),
{
    lemma_numbers_read_back(amount / part);
    lemma_fundamental_div_mod(amount as int, part as int);
    let q = amount / part;
    assert(q * part <= amount < (q + 1) * part) by (nonlinear_arith)
        requires
            amount == part * q + amount % part,
            0 <= amount % part < part,
    ;
}

/// A report on counted work names what is done and all there is, and the whole percent of it.
pub proof fn lemma_counts_in_report(heading: Seq<char>, label: Seq<char>, done: nat, total: nat)
    requires
        total > 0,
    ensures
        exists|a: Seq<char>, b: Seq<char>, c: Seq<char>|
            {
                &&& #[trigger] is_number(a) && number(a) == done
                &&& #[trigger] is_number(b) && number(b) == total
                &&& #[trigger] percent(c, done, total)
                &&& count_report(heading, label, done, total) == "[map] "@ + heading + "... "@ + a
                    + "/"@ + b + " "@ + label + " ("@ + c + "%)"@
            },
{
    lemma_numbers_read_back(done);
    lemma_numbers_read_back(total);
    lemma_whole_parts(done * 100, total);
    let (a, b, c) = (decimal(done), decimal(total), decimal(done * 100 / total));
    assert(is_number(a) && is_number(b) && percent(c, done, total));
}

/// A report on a download names the whole mebibytes that have come.
pub proof fn lemma_bytes_in_report(received: nat)
    ensures
        exists|a: Seq<char>| #[trigger]
            mebibytes(a, received) && download_report(received, None) == "[map] Downloading... "@ + a
                + " MiB"@,
{
    lemma_whole_parts(received, MIB as nat);
    assert(mebibytes(decimal(received / MIB as nat), received));
}

/// Where it is known how many bytes are to come, the report names these too, and the whole percent
/// of them.
pub proof fn lemma_percent_in_report(received: nat, total: u64)
    requires
        total > 0,
    ensures
        exists|a: Seq<char>, b: Seq<char>, c: Seq<char>|
            {
                &&& #[trigger] mebibytes(a, received)
                &&& #[trigger] mebibytes(b, total as nat)
                &&& #[trigger] percent(c, received, total as nat)
                &&& download_report(received, Some(total)) == "[map] Downloading... "@ + a
                    + " MiB / "@ + b + " MiB ("@ + c + "%)"@
            },
{
    lemma_whole_parts(received, MIB as nat);
    lemma_whole_parts(total as nat, MIB as nat);
    lemma_whole_parts(received * 100, total as nat);
    let a = decimal(received / MIB as nat);
    let b = decimal(total as nat / MIB as nat);
    let c = decimal(received * 100 / total as nat);
    assert(mebibytes(a, received) && mebibytes(b, total as nat) && percent(c, received, total as nat));
}

/// Every anchor point of a table that could be read has the name and the place of its row.
pub proof fn lemma_anchors_keep_names_and_places(rows: Seq<Option<AnchorRow>>, n: int, i: int)
    requires
        0 <= i < n <= rows.len(),
        all_readable(rows, n),
    ensures
        readable_points(rows, n).len() == n,
        rows[i] is Some,
        readable_points(rows, n)[i].name == rows[i]->0.name,
        readable_points(rows, n)[i].position.x == rows[i]->0.x,
        readable_points(rows, n)[i].position.y == rows[i]->0.y,
        rows[i]->0.note matches Some(s) && s@.len() > 0 ==> readable_points(rows, n)[i].note
            == rows[i]->0.note,
    decreases n,
{
    assert(rows[n - 1] is Some);
    assert(rows[i] is Some);
    assert(readable_points(rows, 0).len() == 0);
    if n > 1 {
        lemma_anchors_keep_names_and_places(
            rows,
            n - 1,
            if i < n - 1 {
                i
            } else {
                0
            },
        );
    }
}

/// Whether a text is the row of an anchor point: its name and its note with nothing in them that
/// counts as markup, a dash for a note that is missing, and between them column and row in digits.
pub open spec fn is_row_of(row: Seq<char>, a: StoredAnchor) -> bool {
    exists|x: Seq<char>, y: Seq<char>|
        {
            &&& #[trigger] is_number(x) && number(x) == a.x
            &&& #[trigger] is_number(y) && number(y) == a.y
            &&& row == "<tr><td>"@ + escaped(a.name@) + "</td><td>"@ + x + "</td><td>"@ + y
                + "</td><td>"@ + escaped(if a.note@.len() == 0 {
                "—"@
            } else {
                a.note@
            }) + "</td></tr>"@
        }
}

/// The table of the dashboard is that of all but the last anchor point, and then its row: every
/// anchor point has one row, in their order.
pub proof fn lemma_table_row_by_row(anchors: Seq<StoredAnchor>, n: int)
    requires
        0 <= n <= anchors.len(),
    ensures
        n == 0 ==> anchor_rows(anchors, n).len() == 0,
        n > 0 ==> exists|row: Seq<char>| #[trigger]
            is_row_of(row, anchors[n - 1]) && anchor_rows(anchors, n) == anchor_rows(anchors, n - 1)
                + row,
{
    if n > 0 {
        let a = anchors[n - 1];
        lemma_numbers_read_back(a.x as nat);
        lemma_numbers_read_back(a.y as nat);
        let (x, y) = (decimal(a.x as nat), decimal(a.y as nat));
        assert(is_number(x) && is_number(y));
        assert(is_row_of(anchor_row(a), a));
    }
}

} // verus!
