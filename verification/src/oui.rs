//! The vendor behind a link-layer address, looked up in a table of the
//! prefixes that the IEEE has assigned. A table is text: one prefix in
//! hexadecimal and one vendor to a line, with a comma between them.
use crate::text;
use vstd::multiset::Multiset;
use vstd::prelude::*;
use vstd::slice::slice_subrange;

verus! {

/// The contents of each of a list of rows.
pub open spec fn row_views(rows: Seq<(u32, String)>) -> Seq<(u32, Seq<char>)> {
    rows.map_values(|r: (u32, String)| (r.0, r.1@))
}

/// The prefix and the vendor that a line holds.
pub open spec fn line_row(line: Seq<char>) -> Option<(u32, Seq<char>)> {
    let i = text::index_of(line, ',') as int;
    let prefix = text::number(line.take(i), 16, u32::MAX as nat);
    if line.contains(',') && prefix is Some {
        Some((prefix->0 as u32, line.skip(i + 1)))
    } else {
        None
    }
}

/// The rows that the lines hold, in their order.
pub open spec fn line_rows(lines: Seq<Seq<char>>) -> Seq<(u32, Seq<char>)>
    decreases lines.len(),
{
    if lines.len() == 0 {
        seq![]
    } else {
        match line_row(lines.last()) {
            Some(row) => line_rows(lines.drop_last()).push(row),
            None => line_rows(lines.drop_last()),
        }
    }
}

/// The prefixes do not descend.
pub open spec fn sorted(rows: Seq<(u32, String)>) -> bool {
    forall|i: int, j: int| 0 <= i <= j < rows.len() ==> (#[trigger] rows[i]).0 <= (#[trigger] rows[j]).0
}

/// The number that three bytes write, the first byte highest.
pub open spec fn prefix_of(oui: Seq<u8>) -> u32 {
    (oui[0] * 0x1_0000 + oui[1] * 0x100 + oui[2]) as u32
}

fn parse_line(line: &[char]) -> (r: Option<(u32, String)>)
    ensures
        match r {
            Some(row) => line_row(line@) == Some((row.0, row.1@)),
            None => line_row(line@) is None,
        },
{
    let n: usize = line.len();
    let i: usize = text::position(line, ',');
    if i >= n {
        return None;
    }
    let head = slice_subrange(line, 0, i);
    let vendor = slice_subrange(line, i + 1, n);
    assert(head@ =~= line@.take(i as int));
    assert(vendor@ =~= line@.skip(i + 1));
    match text::parse_number(head, 16, u32::MAX) {
        Some(prefix) => Some((prefix, text::string_of(vendor))),
        None => None,
    }
}

/// The rows of a list, each as often as it stands there.
pub open spec fn bag(rows: Seq<(u32, String)>) -> Multiset<(u32, Seq<char>)> {
    row_views(rows).to_multiset()
}

proof fn lemma_bag_push(rows: Seq<(u32, String)>, row: (u32, String))
    ensures
        bag(rows.push(row)) == bag(rows).insert((row.0, row.1@)),
{
    broadcast use vstd::seq_lib::group_to_multiset_ensures;

    assert(row_views(rows.push(row)) =~= row_views(rows).push((row.0, row.1@)));
}

proof fn lemma_bag_empty(rows: Seq<(u32, String)>)
    requires
        rows.len() == 0,
    ensures
        bag(rows) == Multiset::<(u32, Seq<char>)>::empty(),
{
    broadcast use vstd::seq_lib::group_to_multiset_ensures;

    assert(row_views(rows) =~= Seq::empty());
    assert(bag(rows) =~= Multiset::<(u32, Seq<char>)>::empty());
}

proof fn lemma_bag_split(a: Seq<(u32, String)>, b: Seq<(u32, String)>)
    ensures
        bag(a + b) == bag(a).add(bag(b)),
    decreases b.len(),
{
    if b.len() == 0 {
        assert(a + b =~= a);
        lemma_bag_empty(b);
        assert(bag(a).add(bag(b)) =~= bag(a));
    } else {
        let init = b.drop_last();
        lemma_bag_split(a, init);
        assert(a + b =~= (a + init).push(b.last()));
        assert(b =~= init.push(b.last()));
        lemma_bag_push(a + init, b.last());
        lemma_bag_push(init, b.last());
        assert(bag(a + b) =~= bag(a).add(bag(b)));
    }
}

/// Puts the rows of two sorted lists into one.
fn merge(a: Vec<(u32, String)>, b: Vec<(u32, String)>) -> (r: Vec<(u32, String)>)
    requires
        sorted(a@),
        sorted(b@),
    ensures
        sorted(r@),
        bag(r@) == bag(a@).add(bag(b@)),
        r@.len() == a@.len() + b@.len(),
{
    let mut a = a;
    let mut b = b;
    let ghost whole = bag(a@).add(bag(b@));
    let ghost total = a@.len() + b@.len();
    // The rows from the highest prefix down.
    let mut down: Vec<(u32, String)> = Vec::new();
    proof {
        lemma_bag_empty(down@);
        assert(bag(a@).add(bag(b@)).add(bag(down@)) =~= whole);
    }
    while a.len() > 0 || b.len() > 0
        invariant
            sorted(a@),
            sorted(b@),
            forall|i: int, j: int| 0 <= i <= j < down@.len() ==> (#[trigger] down@[i]).0 >= (#[trigger] down@[j]).0,
            forall|i: int, j: int|
                0 <= i < a@.len() && 0 <= j < down@.len() ==> (#[trigger] a@[i]).0 <= (#[trigger] down@[j]).0,
            forall|i: int, j: int|
                0 <= i < b@.len() && 0 <= j < down@.len() ==> (#[trigger] b@[i]).0 <= (#[trigger] down@[j]).0,
            bag(a@).add(bag(b@)).add(bag(down@)) == whole,
            a@.len() + b@.len() + down@.len() == total,
        decreases a@.len() + b@.len(),
    {
        let ghost a0 = a@;
        let ghost b0 = b@;
        let ghost d0 = down@;
        let from_a = b.len() == 0 || (a.len() > 0 && a[a.len() - 1].0 > b[b.len() - 1].0);
        if from_a {
            match a.pop() {
                Some(row) => {
                    down.push(row);
                    proof {
                        assert(a0 =~= a@.push(row));
                        lemma_bag_push(a@, row);
                        lemma_bag_push(d0, row);
                    }
                },
                None => {},
            }
        } else {
            match b.pop() {
                Some(row) => {
                    down.push(row);
                    proof {
                        assert(b0 =~= b@.push(row));
                        lemma_bag_push(b@, row);
                        lemma_bag_push(d0, row);
                    }
                },
                None => {},
            }
        }
        assert(bag(a@).add(bag(b@)).add(bag(down@)) =~= whole);
    }
    proof {
        lemma_bag_empty(a@);
        lemma_bag_empty(b@);
    }
    let mut out: Vec<(u32, String)> = Vec::new();
    proof {
        lemma_bag_empty(out@);
        assert(bag(down@).add(bag(out@)) =~= whole);
    }
    while down.len() > 0
        invariant
            forall|i: int, j: int| 0 <= i <= j < down@.len() ==> (#[trigger] down@[i]).0 >= (#[trigger] down@[j]).0,
            sorted(out@),
            forall|i: int, j: int|
                0 <= i < out@.len() && 0 <= j < down@.len() ==> (#[trigger] out@[i]).0 <= (#[trigger] down@[j]).0,
            bag(down@).add(bag(out@)) == whole,
            down@.len() + out@.len() == total,
        decreases down@.len(),
    {
        let ghost d0 = down@;
        let ghost o0 = out@;
        match down.pop() {
            Some(row) => {
                out.push(row);
                proof {
                    assert(d0 =~= down@.push(row));
                    lemma_bag_push(down@, row);
                    lemma_bag_push(o0, row);
                }
            },
            None => {},
        }
        assert(bag(down@).add(bag(out@)) =~= whole);
    }
    proof {
        lemma_bag_empty(down@);
        assert(bag(out@) =~= whole);
    }
    out
}

/// Sorts rows by their prefix.
fn sort_rows(rows: Vec<(u32, String)>) -> (r: Vec<(u32, String)>)
    ensures
        sorted(r@),
        bag(r@) == bag(rows@),
        r@.len() == rows@.len(),
    decreases rows@.len(),
{
    let n: usize = rows.len();
    if n < 2 {
        return rows;
    }
    let ghost whole = rows@;
    let mut left = rows;
    let right = left.split_off(n / 2);
    proof {
        assert(whole =~= left@ + right@);
        lemma_bag_split(left@, right@);
    }
    merge(sort_rows(left), sort_rows(right))
}

/// Reads a table of vendors. The rows come sorted by their prefix, ready to be
/// searched; lines without a comma or without a number before it are left out.
pub fn parse_table(raw: &str) -> (r: Vec<(u32, String)>)
    ensures
        sorted(r@),
        row_views(r@).to_multiset() == line_rows(text::lines_of(raw@)).to_multiset(),
        r@.len() == line_rows(text::lines_of(raw@)).len(),
{
    let all = text::chars_of(raw);
    let lines = text::lines(all.as_slice());
    let ghost v = text::lines_of(raw@);
    assert(v.len() == lines@.len());
    let mut rows: Vec<(u32, String)> = Vec::new();
    let mut i: usize = 0;
    assert(row_views(rows@) =~= line_rows(v.take(0)));
    while i < lines.len()
        invariant
            v == text::views(lines@),
            v.len() == lines@.len(),
            i <= lines@.len(),
            row_views(rows@) == line_rows(v.take(i as int)),
        decreases lines@.len() - i,
    {
        let ghost before = rows@;
        assert(lines@[i as int]@ == v[i as int]);
        assert(v.take(i + 1).drop_last() =~= v.take(i as int));
        match parse_line(lines[i]) {
            Some(row) => {
                rows.push(row);
                assert(row_views(rows@) =~= row_views(before).push((row.0, row.1@)));
            },
            None => {},
        }
        i += 1;
    }
    assert(v.take(i as int) =~= v);
    sort_rows(rows)
}

/// Looks up the vendor of the first three bytes of a link-layer address. The
/// result is that of some row with the prefix, and none where no row has it.
pub fn vendor_lookup(table: &[(u32, String)], oui: [u8; 3]) -> (r: Option<&str>)
    requires
        sorted(table@),
    ensures
        match r {
            Some(vendor) => exists|i: int|
                0 <= i < table@.len() && (#[trigger] table@[i]).0 == prefix_of(oui@) && vendor@ == table@[i].1@,
            None => forall|i: int| 0 <= i < table@.len() ==> (#[trigger] table@[i]).0 != prefix_of(oui@),
        },
{
    let key: u32 = oui[0] as u32 * 0x1_0000 + oui[1] as u32 * 0x100 + oui[2] as u32;
    let mut lo: usize = 0;
    let mut hi: usize = table.len();
    while lo < hi
        invariant
            sorted(table@),
            key == prefix_of(oui@),
            lo <= hi <= table@.len(),
            forall|i: int| 0 <= i < lo ==> (#[trigger] table@[i]).0 < key,
            forall|i: int| hi <= i < table@.len() ==> (#[trigger] table@[i]).0 > key,
        decreases hi - lo,
    {
        let mid: usize = lo + (hi - lo) / 2;
        let prefix: u32 = table[mid].0;
        if prefix == key {
            return Some(table[mid].1.as_str());
        }
        if prefix < key {
            lo = mid + 1;
        } else {
            hi = mid;
        }
    }
    None
}

/// Looks up the vendor of a link-layer address by its first three bytes.
pub fn vendor_lookup_mac(table: &[(u32, String)], mac: [u8; 6]) -> (r: Option<&str>)
    requires
        sorted(table@),
    ensures
        match r {
            Some(vendor) => exists|i: int|
                0 <= i < table@.len() && (#[trigger] table@[i]).0 == prefix_of(mac@) && vendor@ == table@[i].1@,
            None => forall|i: int| 0 <= i < table@.len() ==> (#[trigger] table@[i]).0 != prefix_of(mac@),
        },
{
    vendor_lookup(table, [mac[0], mac[1], mac[2]])
}

// ---------------------------------------------------------------------------
// Laws
// ---------------------------------------------------------------------------

/// A table that was read from lines holds exactly the rows of those lines: a
/// prefix has a vendor in the table exactly where some line gives it that
/// vendor.
pub proof fn lemma_table_rows(table: Seq<(u32, String)>, lines: Seq<Seq<char>>, row: (u32, Seq<char>))
    requires
        row_views(table).to_multiset() == line_rows(lines).to_multiset(),
    ensures
        row_views(table).contains(row) <==> line_rows(lines).contains(row),
        row_views(table).contains(row) <==> exists|k: int|
            0 <= k < lines.len() && line_row(#[trigger] lines[k]) == Some(row),
{
    broadcast use vstd::seq_lib::group_to_multiset_ensures;

    assert(row_views(table).contains(row) <==> row_views(table).to_multiset().count(row) > 0);
    assert(line_rows(lines).contains(row) <==> line_rows(lines).to_multiset().count(row) > 0);
    lemma_line_rows(lines, row);
}

proof fn lemma_line_rows(lines: Seq<Seq<char>>, row: (u32, Seq<char>))
    ensures
        line_rows(lines).contains(row) <==> exists|k: int|
            0 <= k < lines.len() && line_row(#[trigger] lines[k]) == Some(row),
    decreases lines.len(),
{
    if lines.len() > 0 {
        let init = lines.drop_last();
        let last = lines.len() - 1;
        lemma_line_rows(init, row);
        let some = line_rows(init);
        let all = line_rows(lines);
        if all.contains(row) {
            let j = choose|j: int| 0 <= j < all.len() && all[j] == row;
            if j < some.len() {
                assert(some[j] == row);
                let k = choose|k: int| 0 <= k < init.len() && line_row(#[trigger] init[k]) == Some(row);
                assert(line_row(lines[k]) == Some(row));
            } else {
                assert(line_row(lines[last]) == Some(row));
            }
        }
        if exists|k: int| 0 <= k < lines.len() && line_row(#[trigger] lines[k]) == Some(row) {
            let k = choose|k: int| 0 <= k < lines.len() && line_row(#[trigger] lines[k]) == Some(row);
            if k < last {
                assert(line_row(init[k]) == Some(row));
                let j = choose|j: int| 0 <= j < some.len() && some[j] == row;
                assert(all[j] == row);
            } else {
                assert(all[all.len() - 1] == row);
            }
        }
    }
}

/// A line gives the prefix before its first comma the vendor after it, as it
/// stands there. A line without a comma, or with something else before it than
/// a number in hexadecimal, gives nothing.
pub proof fn lemma_line(prefix: Seq<char>, vendor: Seq<char>, line: Seq<char>)
    ensures
        !line.contains(',') ==> line_row(line) is None,
        !prefix.contains(',') ==> match text::number(prefix, 16, u32::MAX as nat) {
            Some(n) => line_row(prefix + seq![','] + vendor) == Some((n as u32, vendor)),
            None => line_row(prefix + seq![','] + vendor) is None,
        },
{
    let whole = prefix + seq![','] + vendor;
    let n = prefix.len() as int;
    if !prefix.contains(',') {
        assert(whole[n] == ',');
        assert forall|j: int| 0 <= j < n implies whole[j] != ',' by {
            assert(whole[j] == prefix[j]);
        }
        text::lemma_index_of(whole, ',', n);
        assert(whole.take(n) =~= prefix);
        assert(whole.skip(n + 1) =~= vendor);
    }
}

/// Two addresses have the same prefix only where their first three bytes are
/// the same.
pub proof fn lemma_prefix(a: Seq<u8>, b: Seq<u8>)
    ensures
        prefix_of(a) == a[0] * 0x1_0000 + a[1] * 0x100 + a[2],
        prefix_of(a) == prefix_of(b) <==> a[0] == b[0] && a[1] == b[1] && a[2] == b[2],
{
}

/// A line that begins with the first three bytes of an address, in hexadecimal,
/// gives that prefix its vendor.
pub proof fn lemma_vendor_line(oui: Seq<u8>, vendor: Seq<char>)
    requires
        oui.len() == 3,
    ensures
        line_row(
            text::hex_byte(oui[0]) + text::hex_byte(oui[1]) + text::hex_byte(oui[2]) + seq![','] + vendor,
        ) == Some((prefix_of(oui), vendor)),
{
    let a = text::hex_byte(oui[0]);
    let b = text::hex_byte(oui[1]);
    let c = text::hex_byte(oui[2]);
    let s = a + b + c;
    text::lemma_hex_byte(oui[0]);
    text::lemma_hex_byte(oui[1]);
    text::lemma_hex_byte(oui[2]);
    assert(text::digit_of(a[0]) == oui[0] as int / 16 && text::digit_of(a[1]) == oui[0] as int % 16);
    assert(text::digit_of(b[0]) == oui[1] as int / 16 && text::digit_of(b[1]) == oui[1] as int % 16);
    assert(text::digit_of(c[0]) == oui[2] as int / 16 && text::digit_of(c[1]) == oui[2] as int % 16);
    let s0 = Seq::<char>::empty();
    let s1 = s0.push(a[0]);
    let s2 = s1.push(a[1]);
    let s3 = s2.push(b[0]);
    let s4 = s3.push(b[1]);
    let s5 = s4.push(c[0]);
    let s6 = s5.push(c[1]);
    assert(s =~= s6);
    text::lemma_number_read(s0, a[0], 16, 0);
    text::lemma_number_read(s1, a[1], 16, 0);
    text::lemma_number_read(s2, b[0], 16, 0);
    text::lemma_number_read(s3, b[1], 16, 0);
    text::lemma_number_read(s4, c[0], 16, 0);
    text::lemma_number_read(s5, c[1], 16, 0);
    assert(text::digits_value(s, 16) == prefix_of(oui));
    assert forall|i: int| 0 <= i < 6 implies text::digit_of(#[trigger] s[i]) < 16 && s[i] != ',' by {
    }
    assert(s[0] == a[0]);
    assert(text::number(s, 16, u32::MAX as nat) == Some(prefix_of(oui) as nat));
    lemma_line(s, vendor, s);
}

} // verus!
