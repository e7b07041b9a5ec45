use vstd::prelude::*;

use crate::order::{Chain, chain_of, chain_equal};
use crate::prefix_index::{IndexError, PrefixIndex};

verus! {

/// A link creation as validators see it: its author, the chains that its base and
/// target address, and its tag bytes.
#[derive(Clone, Debug)]
pub struct CreateLink {
    pub author: Vec<u8>,
    pub base_address: Vec<String>,
    pub target_address: Vec<String>,
    pub tag: Vec<u8>,
}

/// A link deletion as validators see it: its author and the chain of the base of the
/// deleted link.
#[derive(Clone, Debug)]
pub struct DeleteLink {
    pub author: Vec<u8>,
    pub base_address: Vec<String>,
}

/// The outcome of validating a link mutation.
#[derive(Clone, Debug)]
pub enum ValidateCallbackResult {
    Valid,
    Invalid(String),
}

/// What the `SerializedBytes` decoding of a `Component` gives for the tag bytes `b`:
/// the component's bytes, or `None` where the tag does not hold one.
pub uninterp spec fn component_of_tag(b: Seq<u8>) -> Option<Seq<u8>>;

/// The bytes that an optional byte vector holds.
pub open spec fn opt_bytes(o: Option<Vec<u8>>) -> Option<Seq<u8>> {
    match o {
        Some(v) => Some(v@),
        None => None,
    }
}

/// Relies on hdi's `Component: TryFrom<SerializedBytes>`: it decodes the serialized
/// component that a link tag holds, which depends on the tag bytes alone.
#[verifier::external_body]
fn tag_component(tag: &Vec<u8>) -> (r: Option<Vec<u8>>)
    ensures
        opt_bytes(r) == component_of_tag(tag@),
{
    let sb = hdi::prelude::SerializedBytes::from(hdi::prelude::UnsafeBytes::from(tag.clone()));
    match hdi::prelude::Component::try_from(sb) {
        Ok(c) => Some(Vec::<u8>::from(c)),
        Err(_) => None,
    }
}

/// The little-endian 32-bit number in `b` at byte `i`.
pub open spec fn le_u32(b: Seq<u8>, i: int) -> int {
    b[i] as int + b[i + 1] as int * 0x100 + b[i + 2] as int * 0x1_0000 + b[i + 3] as int * 0x100_0000
}

/// `u` is the code point of a `char`.
pub open spec fn is_char_code(u: int) -> bool {
    (0 <= u < 0xD800) || (0xE000 <= u <= 0x10FFFF)
}

/// `b` holds a text as four little-endian bytes per character.
pub open spec fn is_utf32(b: Seq<u8>) -> bool {
    b.len() % 4 == 0 && forall|i: int| 0 <= i < b.len() / 4 ==> is_char_code(#[trigger] le_u32(b, 4 * i))
}

/// Relies on hdi's `String::try_from(&Component)`: each character of a component is
/// four little-endian bytes of its code point; bytes that are not so fail.
#[verifier::external_body]
fn component_text(c: &Vec<u8>) -> (r: Option<String>)
    ensures
        r is Some <==> is_utf32(c@),
        r matches Some(s) ==> s@.len() * 4 == c@.len() && forall|i: int|
            0 <= i < s@.len() ==> s@[i] as int == #[trigger] le_u32(c@, 4 * i),
{
    String::try_from(&hdi::prelude::Component::from(c.clone())).ok()
}

/// Why a link from the root is refused when it does not point at the name's chain.
pub open spec fn target_reason() -> Seq<char> {
    "PrefixIndex first component: target address must be index name"@
}

/// Why a link from the root is refused when its tag is not the index name.
pub open spec fn name_reason() -> Seq<char> {
    "PrefixIndex first component: tag string must be index name"@
}

/// Why a link from the name's chain is refused when its tag has the wrong width.
pub open spec fn width_reason() -> Seq<char> {
    "PrefixIndex second component: tag string must have same number of chars as prefix index width"@
}

/// Why a deletion by someone other than the link's author is refused.
pub open spec fn author_reason() -> Seq<char> {
    "Only the original author can delete a PrefixIndex link"@
}

/// Why a deletion of a link from the root is refused.
pub open spec fn root_reason() -> Seq<char> {
    "Cannot delete the root component of a PrefixIndex"@
}

/// The verdict on the creation of a link from `base` to `target` with tag text `tag` for
/// the index named `name` with shard width `width`: `None` where it fits, else the reason.
/// A link from the root must point at the chain of the name alone and carry the name; a
/// link from the name's chain must carry a segment of `width` characters; deeper links
/// cannot be checked here.
pub open spec fn create_verdict(base: Chain, target: Chain, tag: Seq<char>, name: Seq<char>, width: nat) -> Option<
    Seq<char>,
> {
    if base.len() == 0 {
        if target != seq![tag] {
            Some(target_reason())
        } else if tag != name {
            Some(name_reason())
        } else {
            None
        }
    } else if base == seq![name] && tag.len() != width {
        Some(width_reason())
    } else {
        None
    }
}

/// Whether the creation of a link fits the index, as `create_verdict` states.
pub open spec fn create_is_valid(base: Chain, target: Chain, tag: Seq<char>, name: Seq<char>, width: nat) -> bool {
    create_verdict(base, target, tag, name, width) is None
}

/// The verdict on a link deletion: only the author of the link may delete it, and a link
/// from the root may not be deleted. `None` where it may stand, else the reason.
pub open spec fn delete_verdict(author: Seq<u8>, creator: Seq<u8>, base: Chain) -> Option<Seq<char>> {
    if author != creator {
        Some(author_reason())
    } else if base.len() == 0 {
        Some(root_reason())
    } else {
        None
    }
}

/// Whether a link deletion may stand, as `delete_verdict` states.
pub open spec fn delete_is_valid(author: Seq<u8>, creator: Seq<u8>, base: Chain) -> bool {
    delete_verdict(author, creator, base) is None
}

/// The verdict that a validation result gives: `None` for `Valid`, else the reason.
pub open spec fn verdict_of(r: ValidateCallbackResult) -> Option<Seq<char>> {
    match r {
        ValidateCallbackResult::Valid => None,
        ValidateCallbackResult::Invalid(s) => Some(s@),
    }
}

fn bytes_equal(a: &Vec<u8>, b: &Vec<u8>) -> (r: bool)
    ensures
        r == (a@ == b@),
{
    if a.len() != b.len() {
        return false;
    }
    let mut i: usize = 0;
    while i < a.len()
        invariant
            i <= a.len(),
            a.len() == b.len(),
            forall|k: int| 0 <= k < i ==> a@[k] == b@[k],
        decreases a.len() - i,
    {
        if a[i] != b[i] {
            return false;
        }
        i = i + 1;
    }
    assert(a@ =~= b@);
    true
}

/// Validates a link creation whose tag has been decoded to `tag_string`.
pub fn validate_create_link_tag(
    base_address: &Vec<String>,
    target_address: &Vec<String>,
    tag_string: &String,
    prefix_index: &PrefixIndex,
) -> (r: ValidateCallbackResult)
    ensures
        verdict_of(r) == create_verdict(
            chain_of(base_address@),
            chain_of(target_address@),
            tag_string@,
            prefix_index.index_name@,
            prefix_index.width as nat,
        ),
{
    let mut name_chain: Vec<String> = Vec::new();
    name_chain.push(prefix_index.index_name.clone());
    assert(chain_of(name_chain@) =~= seq![prefix_index.index_name@]);
    if base_address.len() == 0 {
        let mut tag_chain: Vec<String> = Vec::new();
        tag_chain.push(tag_string.clone());
        assert(chain_of(tag_chain@) =~= seq![tag_string@]);
        if !chain_equal(target_address, &tag_chain) {
            return ValidateCallbackResult::Invalid(
                String::from_str("PrefixIndex first component: target address must be index name"),
            );
        }
        if *tag_string != prefix_index.index_name {
            return ValidateCallbackResult::Invalid(
                String::from_str("PrefixIndex first component: tag string must be index name"),
            );
        }
    } else if chain_equal(base_address, &name_chain) {
        if tag_string.as_str().unicode_len() != prefix_index.width {
            return ValidateCallbackResult::Invalid(
                String::from_str(
                    "PrefixIndex second component: tag string must have same number of chars as prefix index width",
                ),
            );
        }
    }
    ValidateCallbackResult::Valid
}

/// Validates a link creation for the index: decodes its tag, then checks it as
/// `create_verdict` states. A tag that does not decode is a `DecodeFailure`.
pub fn validate_create_link_prefix_index(action: &CreateLink, prefix_index: &PrefixIndex) -> (r: Result<
    ValidateCallbackResult,
    IndexError,
>)
    ensures
        r is Err <==> (component_of_tag(action.tag@) is None || !is_utf32(component_of_tag(action.tag@).unwrap())),
        r matches Err(e) ==> e == IndexError::DecodeFailure,
        r matches Ok(v) ==> exists|tag: Seq<char>|
            tag.len() * 4 == component_of_tag(action.tag@).unwrap().len() && (forall|i: int|
                0 <= i < tag.len() ==> tag[i] as int == #[trigger] le_u32(component_of_tag(action.tag@).unwrap(), 4 * i))
                && verdict_of(v) == create_verdict(
                chain_of(action.base_address@),
                chain_of(action.target_address@),
                tag,
                prefix_index.index_name@,
                prefix_index.width as nat,
            ),
{
    let component = match tag_component(&action.tag) {
        Some(c) => c,
        None => {
            return Err(IndexError::DecodeFailure);
        },
    };
    let tag_string = match component_text(&component) {
        Some(s) => s,
        None => {
            return Err(IndexError::DecodeFailure);
        },
    };
    Ok(validate_create_link_tag(&action.base_address, &action.target_address, &tag_string, prefix_index))
}

/// Validates a link deletion against the creation it deletes, as `delete_verdict` states.
pub fn validate_delete_link_prefix_index(action: &DeleteLink, original_action: &CreateLink) -> (r:
    ValidateCallbackResult)
    ensures
        verdict_of(r) == delete_verdict(
            action.author@,
            original_action.author@,
            chain_of(original_action.base_address@),
        ),
{
    if !bytes_equal(&action.author, &original_action.author) {
        return ValidateCallbackResult::Invalid(
            String::from_str("Only the original author can delete a PrefixIndex link"),
        );
    }
    if original_action.base_address.len() == 0 {
        return ValidateCallbackResult::Invalid(String::from_str("Cannot delete the root component of a PrefixIndex"));
    }
    ValidateCallbackResult::Valid
}

impl PrefixIndex {
    /// Validates a link creation for this index.
    pub fn validate_create_link(self, action: CreateLink) -> (r: Result<ValidateCallbackResult, IndexError>)
        ensures
            r is Err <==> (component_of_tag(action.tag@) is None || !is_utf32(
                component_of_tag(action.tag@).unwrap(),
            )),
            r matches Ok(v) ==> exists|tag: Seq<char>|
                tag.len() * 4 == component_of_tag(action.tag@).unwrap().len() && (forall|i: int|
                    0 <= i < tag.len() ==> tag[i] as int == #[trigger] le_u32(component_of_tag(action.tag@).unwrap(), 4 * i))
                    && verdict_of(v) == create_verdict(
                    chain_of(action.base_address@),
                    chain_of(action.target_address@),
                    tag,
                    self.index_name@,
                    self.width as nat,
                ),
    {
        validate_create_link_prefix_index(&action, &self)
    }

    /// Validates a link deletion for this index against the creation it deletes.
    pub fn validate_delete_link(self, action: DeleteLink, original_action: CreateLink) -> (r: ValidateCallbackResult)
        ensures
            verdict_of(r) == delete_verdict(
                action.author@,
                original_action.author@,
                chain_of(original_action.base_address@),
            ),
    {
        validate_delete_link_prefix_index(&action, &original_action)
    }
}

} // verus!
