//! Key/value attributes carried by a staked asset.

use vstd::prelude::*;
use anchor_lang::prelude::{AccountInfo, Pubkey};
use mpl_core::accounts::BaseAssetV1;
use mpl_core::fetch_plugin;
use mpl_core::types::{Attributes, PluginType};
use crate::asset_layout::plugin_offsets_in_bounds;

verus! {

/// One attribute of an asset's attribute plugin.
#[derive(Debug)]
pub struct Attribute {
    pub key: String,
    pub value: String,
}

impl View for Attribute {
    type V = (Seq<char>, Seq<char>);

    open spec fn view(&self) -> (Seq<char>, Seq<char>) {
        (self.key@, self.value@)
    }
}

impl Attribute {
    /// A copy of this attribute.
    pub fn duplicate(&self) -> (r: Attribute)
        ensures
            r@ == self@,
    {
        Attribute { key: self.key.clone(), value: self.value.clone() }
    }
}

/// The key/value texts of a list of attributes.
pub open spec fn attributes_view(s: Seq<Attribute>) -> Seq<(Seq<char>, Seq<char>)> {
    s.map_values(|a: Attribute| a@)
}

/// The attribute list of the attribute plugin of the asset account whose
/// data is `data` and whose owner program is `owner`; `None` when the account
/// is not an asset of the mpl-core program or has no attribute plugin.
pub uninterp spec fn spec_asset_attribute_plugin(data: Seq<u8>, owner: Seq<u8>) -> Option<Seq<(Seq<char>, Seq<char>)>>;

/// Reads the attribute plugin of an mpl-core asset account with
/// `mpl_core::fetch_plugin::<BaseAssetV1, Attributes>`.
///
/// Trusted: `fetch_plugin` reads only the account's data and owner (a
/// default key and zero lamports stand for the rest), so its result is named
/// as a function of those two; the contract claims nothing more of it.
/// `fetch_plugin` slices the data at the plugin registry's offset and at the
/// first attribute plugin record's offset, both read from the data, and
/// panics when one lies past the end; the `requires` leaves those data out.
#[verifier::external_body]
pub(crate) fn asset_attribute_plugin(data: &[u8], owner: [u8; 32]) -> (r: Option<Vec<Attribute>>)
    requires
        plugin_offsets_in_bounds(data@),
    ensures
        match r {
            None => spec_asset_attribute_plugin(data@, owner@) is None,
            Some(v) => spec_asset_attribute_plugin(data@, owner@) == Some(attributes_view(v@)),
        },
{
    let key = Pubkey::default();
    let owner = Pubkey::new_from_array(owner);
    let mut lamports: u64 = 0;
    let mut bytes = data.to_vec();
    let account = AccountInfo::new(&key, false, false, &mut lamports, &mut bytes, &owner, false, 0);
    fetch_plugin::<BaseAssetV1, Attributes>(&account, PluginType::Attributes)
        .ok()
        .map(|(_, attrs, _)| attrs.attribute_list.into_iter().map(|a| Attribute { key: a.key, value: a.value }).collect())
}

/// Compares two texts with `==` on `str`.
///
/// Trusted: std's equality of string slices compares their contents.
#[verifier::external_body]
pub(crate) fn str_eq(a: &str, b: &str) -> (r: bool)
    ensures
        r == (a@ == b@),
{
    a == b
}

} // verus!
