//! The byte layout of an mpl-core asset account, as far as it locates the
//! offsets that the attribute plugin is read at.
//!
//! An asset account holds the asset (`key: u8`, `owner: [u8; 32]`, an update
//! authority of one tag byte followed by 32 bytes for tags 1 and 2, `name`
//! and `uri` as a little-endian `u32` length and that many bytes, and `seq` as
//! a tag byte followed by 8 bytes for tag 1), then the plugin header (`key:
//! u8`, `plugin_registry_offset: u64`), and, at that offset, the plugin
//! registry (`key: u8`, a `u32` count, then records of `plugin_type: u8`, an
//! authority of one tag byte followed by 32 bytes for tag 3, and `offset:
//! u64`). Integers are little-endian.

use vstd::prelude::*;
use vstd::arithmetic::power::{pow, lemma_pow_positive};

verus! {

/// The plugin type byte of the attribute plugin.
pub const ATTRIBUTES_PLUGIN_TYPE: u8 = 6;

/// The little-endian value of the `n` bytes of `data` from `at` on.
pub open spec fn le_value(data: Seq<u8>, at: int, n: nat) -> int
    decreases n,
{
    if n == 0 {
        0
    } else {
        data[at] + 256 * le_value(data, at + 1, (n - 1) as nat)
    }
}

/// Where the asset ends, that is where the plugin header starts; `None`
/// when the bytes do not hold an asset of this layout.
pub open spec fn asset_end(data: Seq<u8>) -> Option<int> {
    if data.len() < 34 {
        None
    } else {
        let ua = data[33];
        if ua > 2 {
            None
        } else {
            let name_at: int = if ua == 0 { 34 } else { 66 };
            if name_at + 4 > data.len() {
                None
            } else {
                let uri_at = name_at + 4 + le_value(data, name_at, 4);
                if uri_at + 4 > data.len() {
                    None
                } else {
                    let seq_at = uri_at + 4 + le_value(data, uri_at, 4);
                    if seq_at + 1 > data.len() {
                        None
                    } else if data[seq_at] == 0 {
                        Some(seq_at + 1)
                    } else if data[seq_at] == 1 && seq_at + 9 <= data.len() {
                        Some(seq_at + 9)
                    } else {
                        None
                    }
                }
            }
        }
    }
}

/// The offset of the first attribute plugin among `remaining` registry
/// records from `pos` on; `None` when there is none, or when a record before
/// it does not fit this layout.
pub open spec fn first_attributes_offset(data: Seq<u8>, pos: int, remaining: nat) -> Option<int>
    decreases remaining,
{
    if remaining == 0 || pos < 0 || pos + 2 > data.len() {
        None
    } else {
        let tag = data[pos + 1];
        if tag > 3 {
            None
        } else {
            let offset_at = if tag == 3 { pos + 34 } else { pos + 2 };
            if offset_at + 8 > data.len() {
                None
            } else if data[pos] == ATTRIBUTES_PLUGIN_TYPE {
                Some(le_value(data, offset_at, 8))
            } else {
                first_attributes_offset(data, offset_at + 8, (remaining - 1) as nat)
            }
        }
    }
}

/// The offsets at which the attribute plugin is read lie inside the data:
/// the plugin registry's offset, and that of the first attribute plugin
/// record. Data that does not fit the layout far enough to locate an offset
/// places no bound on it.
pub open spec fn plugin_offsets_in_bounds(data: Seq<u8>) -> bool {
    match asset_end(data) {
        None => true,
        Some(header_at) => {
            if header_at + 9 > data.len() {
                true
            } else {
                let registry_at = le_value(data, header_at + 1, 8);
                &&& registry_at <= data.len()
                &&& (registry_at + 5 <= data.len() ==> match first_attributes_offset(
                    data,
                    registry_at + 5,
                    le_value(data, registry_at + 1, 4) as nat,
                ) {
                    Some(offset) => offset <= data.len(),
                    None => true,
                })
            }
        }
    }
}

proof fn lemma_le_value_bound(data: Seq<u8>, at: int, n: nat)
    ensures
        0 <= le_value(data, at, n) < pow(256, n),
    decreases n,
{
    reveal(pow);
    if n > 0 {
        lemma_le_value_bound(data, at + 1, (n - 1) as nat);
        let rest = le_value(data, at + 1, (n - 1) as nat);
        let p = pow(256, (n - 1) as nat);
        let b = data[at] as int;
        assert(b + 256 * rest < 256 * p) by (nonlinear_arith)
            requires
                0 <= b < 256,
                0 <= rest < p,
        ;
    }
}

/// The little-endian value of `data[at..at + n]`.
fn read_le(data: &[u8], at: usize, n: usize) -> (r: u64)
    requires
        n <= 8,
        at + n <= data@.len(),
    ensures
        r == le_value(data@, at as int, n as nat),
{
    proof {
        reveal_with_fuel(pow, 9);
        lemma_pow_positive(256, 8);
    }
    let len = data.len();
    let mut v: u64 = 0;
    let mut k: usize = n;
    while k > 0
        invariant
            len == data@.len(),
            n <= 8,
            at + n <= data@.len(),
            k <= n,
            v == le_value(data@, (at + k) as int, (n - k) as nat),
            pow(256, 8) == 18446744073709551616,
        decreases k,
    {
        proof {
            lemma_le_value_bound(data@, (at + k) as int, (n - k) as nat);
            vstd::arithmetic::power::lemma_pow_increases(256, (n - k) as nat, 7);
            reveal_with_fuel(pow, 9);
            assert(pow(256, 7) == 72057594037927936);
        }
        k = k - 1;
        let b = data[at + k];
        assert(b + 256 * v <= 18446744073709551615) by (nonlinear_arith)
            requires
                b < 256,
                v < 72057594037927936,
        ;
        v = b as u64 + 256 * v;
    }
    v
}

/// Whether the offsets at which the attribute plugin of the asset account
/// with data `data` is read lie inside the data.
pub fn asset_plugin_offsets_in_bounds(data: &[u8]) -> (r: bool)
    ensures
        r == plugin_offsets_in_bounds(data@),
{
    let len = data.len();
    let header_at: usize = match asset_end_exec(data) {
        None => return true,
        Some(h) => h,
    };
    if header_at > len || len - header_at < 9 {
        return true;
    }
    let registry_at = read_le(data, header_at + 1, 8);
    if registry_at > len as u64 {
        return false;
    }
    let registry_at = registry_at as usize;
    if len - registry_at < 5 {
        return true;
    }
    let count = read_le(data, registry_at + 1, 4);
    match first_attributes_offset_exec(data, registry_at + 5, count) {
        Some(offset) => offset <= len as u64,
        None => true,
    }
}

fn asset_end_exec(data: &[u8]) -> (r: Option<usize>)
    ensures
        match asset_end(data@) {
            None => r is None,
            Some(e) => 0 <= e <= data@.len() && r == Some(e as usize),
        },
{
    let len = data.len();
    if len < 34 {
        return None;
    }
    let ua = data[33];
    if ua > 2 {
        return None;
    }
    let name_at: usize = if ua == 0 { 34 } else { 66 };
    if name_at > len || len - name_at < 4 {
        return None;
    }
    let name_len = read_le(data, name_at, 4);
    if name_len > (len - name_at - 4) as u64 {
        return None;
    }
    let uri_at = name_at + 4 + name_len as usize;
    if len - uri_at < 4 {
        return None;
    }
    let uri_len = read_le(data, uri_at, 4);
    if uri_len > (len - uri_at - 4) as u64 {
        return None;
    }
    let seq_at = uri_at + 4 + uri_len as usize;
    if len - seq_at < 1 {
        return None;
    }
    if data[seq_at] == 0 {
        Some(seq_at + 1)
    } else if data[seq_at] == 1 && len - seq_at >= 9 {
        Some(seq_at + 9)
    } else {
        None
    }
}

fn first_attributes_offset_exec(data: &[u8], pos: usize, count: u64) -> (r: Option<u64>)
    requires
        pos <= data@.len(),
    ensures
        match first_attributes_offset(data@, pos as int, count as nat) {
            None => r is None,
            Some(o) => r matches Some(v) && v == o,
        },
{
    let len = data.len();
    let ghost start = first_attributes_offset(data@, pos as int, count as nat);
    let mut cur = pos;
    let mut left = count;
    while left > 0
        invariant
            len == data@.len(),
            cur <= len,
            first_attributes_offset(data@, cur as int, left as nat) == start,
            start == first_attributes_offset(data@, pos as int, count as nat),
        decreases left,
    {
        if len - cur < 2 {
            return None;
        }
        let tag = data[cur + 1];
        if tag > 3 {
            return None;
        }
        if tag == 3 && len - cur < 34 {
            return None;
        }
        let offset_at = if tag == 3 { cur + 34 } else { cur + 2 };
        if len - offset_at < 8 {
            return None;
        }
        if data[cur] == ATTRIBUTES_PLUGIN_TYPE {
            proof {
                lemma_le_value_bound(data@, offset_at as int, 8);
                reveal_with_fuel(pow, 9);
            }
            return Some(read_le(data, offset_at, 8));
        }
        cur = offset_at + 8;
        left = left - 1;
    }
    None
}

/// The `n` little-endian bytes of `v` (its lowest `n` bytes).
pub open spec fn le_bytes(v: nat, n: nat) -> Seq<u8>
    decreases n,
{
    if n == 0 {
        Seq::empty()
    } else {
        seq![(v % 256) as u8] + le_bytes(v / 256, (n - 1) as nat)
    }
}

/// Borsh bytes of a byte string: its length as a little-endian `u32`, then
/// its bytes.
pub open spec fn borsh_bytes(s: Seq<u8>) -> Seq<u8> {
    le_bytes(s.len(), 4) + s
}

/// Borsh bytes of an update authority: its tag, then for tags other than 0
/// (`None`) the 32-byte key.
pub open spec fn borsh_update_authority(tag: u8, key: Seq<u8>) -> Seq<u8> {
    if tag == 0 {
        seq![0u8]
    } else {
        seq![tag] + key
    }
}

/// Borsh bytes of an optional `u64`: tag 0, or tag 1 and the value.
pub open spec fn borsh_option_u64(v: Option<u64>) -> Seq<u8> {
    match v {
        None => seq![0u8],
        Some(x) => seq![1u8] + le_bytes(x as nat, 8),
    }
}

/// Borsh bytes of an asset: key, owner, update authority, name, uri, seq.
pub open spec fn borsh_asset(
    key: u8,
    owner: Seq<u8>,
    ua_tag: u8,
    ua_key: Seq<u8>,
    name: Seq<u8>,
    uri: Seq<u8>,
    seq: Option<u64>,
) -> Seq<u8> {
    seq![key] + owner + borsh_update_authority(ua_tag, ua_key) + borsh_bytes(name) + borsh_bytes(uri)
        + borsh_option_u64(seq)
}

/// The fields of an asset have the sizes its encoding takes: a 32-byte
/// owner, an update authority `None`, `Address` or `Collection` with a 32-byte
/// key when it has one, and a name and uri whose lengths fit in `u32`.
pub open spec fn asset_fields_sized(owner: Seq<u8>, ua_tag: u8, ua_key: Seq<u8>, name: Seq<u8>, uri: Seq<u8>) -> bool {
    &&& owner.len() == 32
    &&& ua_tag <= 2
    &&& ua_tag != 0 ==> ua_key.len() == 32
    &&& name.len() < 0x1_0000_0000
    &&& uri.len() < 0x1_0000_0000
}

/// `bytes` stand in `data` from `pos` on.
pub open spec fn holds_at(data: Seq<u8>, pos: int, bytes: Seq<u8>) -> bool {
    &&& 0 <= pos
    &&& pos + bytes.len() <= data.len()
    &&& forall|i: int| 0 <= i < bytes.len() ==> data[pos + i] == #[trigger] bytes[i]
}

proof fn lemma_holds_at_split(data: Seq<u8>, pos: int, a: Seq<u8>, b: Seq<u8>)
    requires
        holds_at(data, pos, a + b),
    ensures
        holds_at(data, pos, a),
        holds_at(data, pos + a.len(), b),
{
    assert forall|i: int| 0 <= i < a.len() implies data[pos + i] == #[trigger] a[i] by {
        assert((a + b)[i] == a[i]);
    }
    assert forall|i: int| 0 <= i < b.len() implies data[pos + a.len() + i] == #[trigger] b[i] by {
        assert((a + b)[a.len() + i] == b[i]);
    }
}

proof fn lemma_le_bytes_len(v: nat, n: nat)
    ensures
        le_bytes(v, n).len() == n,
    decreases n,
{
    if n > 0 {
        lemma_le_bytes_len(v / 256, (n - 1) as nat);
    }
}

proof fn lemma_le_read(data: Seq<u8>, at: int, v: nat, n: nat)
    requires
        v < pow(256, n),
        holds_at(data, at, le_bytes(v, n)),
    ensures
        le_value(data, at, n) == v,
    decreases n,
{
    lemma_le_bytes_len(v, n);
    reveal(pow);
    if n > 0 {
        let rest = le_bytes(v / 256, (n - 1) as nat);
        assert(le_bytes(v, n) == seq![(v % 256) as u8] + rest);
        lemma_holds_at_split(data, at, seq![(v % 256) as u8], rest);
        assert(seq![(v % 256) as u8][0] == (v % 256) as u8);
        let p = pow(256, (n - 1) as nat);
        assert(v / 256 < p) by {
            assert(v < 256 * p);
        }
        lemma_le_read(data, at + 1, v / 256, (n - 1) as nat);
        assert(data[at + 0] == seq![(v % 256) as u8][0]);
        assert(data[at] == v % 256);
        assert(le_value(data, at, n) == data[at] + 256 * le_value(data, at + 1, (n - 1) as nat));
        vstd::arithmetic::div_mod::lemma_fundamental_div_mod(v as int, 256);
        assert(v == 256 * (v / 256) + v % 256);
    }
}

/// An asset's encoding ends where its encoded length says: the plugin header
/// of an asset account is looked for right after the asset, whatever its
/// update authority, name, uri and seq.
pub proof fn lemma_asset_end_of_encoded_asset(
    key: u8,
    owner: Seq<u8>,
    ua_tag: u8,
    ua_key: Seq<u8>,
    name: Seq<u8>,
    uri: Seq<u8>,
    seq: Option<u64>,
    rest: Seq<u8>,
)
    requires
        asset_fields_sized(owner, ua_tag, ua_key, name, uri),
    ensures
        asset_end(borsh_asset(key, owner, ua_tag, ua_key, name, uri, seq) + rest)
            == Some(borsh_asset(key, owner, ua_tag, ua_key, name, uri, seq).len() as int),
{
    reveal_with_fuel(pow, 9);
    let asset = borsh_asset(key, owner, ua_tag, ua_key, name, uri, seq);
    let data = asset + rest;
    let p0 = seq![key] + owner;
    let ua = borsh_update_authority(ua_tag, ua_key);
    let nb = borsh_bytes(name);
    let ub = borsh_bytes(uri);
    let sb = borsh_option_u64(seq);
    lemma_le_bytes_len(name.len(), 4);
    lemma_le_bytes_len(uri.len(), 4);
    assert(holds_at(data, 0, asset)) by {
        assert forall|i: int| 0 <= i < asset.len() implies data[0 + i] == #[trigger] asset[i] by {
            assert(data[i] == asset[i]);
        }
    }
    lemma_holds_at_split(data, 0, p0 + ua + nb + ub, sb);
    lemma_holds_at_split(data, 0, p0 + ua + nb, ub);
    lemma_holds_at_split(data, 0, p0 + ua, nb);
    lemma_holds_at_split(data, 0, p0, ua);
    let name_at: int = (p0.len() + ua.len()) as int;
    let uri_at: int = name_at + nb.len();
    let seq_at: int = uri_at + ub.len();
    assert(data[33] == ua[0]);
    assert(ua[0] == ua_tag);
    lemma_holds_at_split(data, name_at, le_bytes(name.len(), 4), name);
    lemma_le_read(data, name_at, name.len(), 4);
    lemma_holds_at_split(data, uri_at, le_bytes(uri.len(), 4), uri);
    lemma_le_read(data, uri_at, uri.len(), 4);
    assert(data[seq_at] == sb[0]);
    match seq {
        None => {}
        Some(x) => {
            lemma_le_bytes_len(x as nat, 8);
        }
    }
}

/// A plugin registry record's fields: plugin type, authority tag, authority
/// key (for tag 3, `Address`), and the offset of the plugin.
pub type RecordFields = (u8, u8, Seq<u8>, u64);

/// The fields of a record have the sizes its encoding takes: an authority
/// `None`, `Owner`, `UpdateAuthority` or `Address`, with a 32-byte key for
/// `Address`.
pub open spec fn record_sized(r: RecordFields) -> bool {
    r.1 <= 3 && (r.1 == 3 ==> r.2.len() == 32)
}

/// Borsh bytes of a registry record.
pub open spec fn borsh_record(r: RecordFields) -> Seq<u8> {
    seq![r.0] + (if r.1 == 3 { seq![3u8] + r.2 } else { seq![r.1] }) + le_bytes(r.3 as nat, 8)
}

/// Borsh bytes of a list of registry records, without its length.
pub open spec fn borsh_records(rs: Seq<RecordFields>) -> Seq<u8>
    decreases rs.len(),
{
    if rs.len() == 0 {
        Seq::empty()
    } else {
        borsh_record(rs[0]) + borsh_records(rs.drop_first())
    }
}

/// An encoded asset account: the asset, the plugin header (its key and the
/// registry's offset), the plugin data `plugins`, then the plugin registry
/// (its key, the records with their count, and the external registry bytes
/// `external`).
pub open spec fn encoded_asset_account(
    asset: Seq<u8>,
    header_key: u8,
    plugins: Seq<u8>,
    registry_key: u8,
    records: Seq<RecordFields>,
    external: Seq<u8>,
) -> Seq<u8> {
    let registry_at = asset.len() + 9 + plugins.len();
    asset + (seq![header_key] + le_bytes(registry_at, 8)) + plugins + (seq![registry_key] + le_bytes(
        records.len(),
        4,
    ) + borsh_records(records) + external)
}

proof fn lemma_walk_encoded_records(data: Seq<u8>, pos: int, rs: Seq<RecordFields>)
    requires
        holds_at(data, pos, borsh_records(rs)),
        forall|j: int| 0 <= j < rs.len() ==> record_sized(#[trigger] rs[j]),
    ensures
        first_attributes_offset(data, pos, rs.len()) matches Some(o) ==> exists|j: int|
            0 <= j < rs.len() && o == (#[trigger] rs[j]).3,
    decreases rs.len(),
{
    if rs.len() > 0 {
        reveal_with_fuel(pow, 9);
        let r = rs[0];
        let auth = if r.1 == 3 { seq![3u8] + r.2 } else { seq![r.1] };
        let tail = rs.drop_first();
        lemma_le_bytes_len(r.3 as nat, 8);
        lemma_holds_at_split(data, pos, borsh_record(r), borsh_records(tail));
        lemma_holds_at_split(data, pos, seq![r.0] + auth, le_bytes(r.3 as nat, 8));
        lemma_holds_at_split(data, pos, seq![r.0], auth);
        assert(record_sized(rs[0]));
        assert(data[pos + 0] == seq![r.0][0]);
        assert(data[pos + 1 + 0] == auth[0]);
        let offset_at = pos + 1 + auth.len();
        lemma_le_read(data, offset_at, r.3 as nat, 8);
        assert forall|j: int| 0 <= j < tail.len() implies record_sized(#[trigger] tail[j]) by {
            assert(tail[j] == rs[j + 1]);
        }
        lemma_walk_encoded_records(data, offset_at + 8, tail);
        let next = first_attributes_offset(data, offset_at + 8, tail.len());
        if next is Some {
            let o = next.unwrap();
            let j = choose|j: int| 0 <= j < tail.len() && o == (#[trigger] tail[j]).3;
            assert(tail[j] == rs[j + 1]);
        }
    }
}

/// In every asset account encoded as mpl-core lays it out, whose plugin
/// records' offsets lie inside it, the offsets that the attribute plugin is
/// read at are judged in bounds, whatever the asset's update authority,
/// name, uri and seq.
pub proof fn lemma_encoded_asset_account_in_bounds(
    key: u8,
    owner: Seq<u8>,
    ua_tag: u8,
    ua_key: Seq<u8>,
    name: Seq<u8>,
    uri: Seq<u8>,
    seq: Option<u64>,
    header_key: u8,
    plugins: Seq<u8>,
    registry_key: u8,
    records: Seq<RecordFields>,
    external: Seq<u8>,
)
    requires
        asset_fields_sized(owner, ua_tag, ua_key, name, uri),
        records.len() < 0x1_0000_0000,
        forall|j: int| 0 <= j < records.len() ==> record_sized(#[trigger] records[j]),
        ({
            let asset = borsh_asset(key, owner, ua_tag, ua_key, name, uri, seq);
            let data = encoded_asset_account(asset, header_key, plugins, registry_key, records, external);
            &&& data.len() < 0x1_0000_0000_0000_0000
            &&& forall|j: int| 0 <= j < records.len() ==> (#[trigger] records[j]).3 <= data.len()
        }),
    ensures
        plugin_offsets_in_bounds(
            encoded_asset_account(
                borsh_asset(key, owner, ua_tag, ua_key, name, uri, seq),
                header_key,
                plugins,
                registry_key,
                records,
                external,
            ),
        ),
{
    reveal_with_fuel(pow, 9);
    let asset = borsh_asset(key, owner, ua_tag, ua_key, name, uri, seq);
    let data = encoded_asset_account(asset, header_key, plugins, registry_key, records, external);
    let registry_at = asset.len() + 9 + plugins.len();
    let header = seq![header_key] + le_bytes(registry_at, 8);
    let count = le_bytes(records.len(), 4);
    let registry = seq![registry_key] + count + borsh_records(records) + external;
    lemma_le_bytes_len(registry_at, 8);
    lemma_le_bytes_len(records.len(), 4);
    lemma_asset_end_of_encoded_asset(key, owner, ua_tag, ua_key, name, uri, seq, header + plugins + registry);
    assert(data == asset + (header + plugins + registry));
    assert(holds_at(data, 0, data)) by {
        assert forall|i: int| 0 <= i < data.len() implies data[0 + i] == #[trigger] data[i] by {}
    }
    assert(data == asset + header + plugins + registry);
    lemma_holds_at_split(data, 0, asset + header + plugins, registry);
    lemma_holds_at_split(data, 0, asset + header, plugins);
    lemma_holds_at_split(data, 0, asset, header);
    lemma_holds_at_split(data, asset.len() as int, seq![header_key], le_bytes(registry_at, 8));
    lemma_le_read(data, asset.len() as int + 1, registry_at, 8);
    let reg: int = registry_at as int;
    lemma_holds_at_split(data, reg, seq![registry_key] + count + borsh_records(records), external);
    lemma_holds_at_split(data, reg, seq![registry_key] + count, borsh_records(records));
    lemma_holds_at_split(data, reg, seq![registry_key], count);
    lemma_le_read(data, reg + 1, records.len(), 4);
    lemma_walk_encoded_records(data, reg + 5, records);
}

} // verus!
