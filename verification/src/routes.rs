//! What the pages of the service decide: the token that a confirmation link
//! carries, what a request leads to, and what the list of an address shows.

use vstd::prelude::*;
use crate::action::{Action, ActionView, AuthError, Operation, SignedAction, SignedView};
use crate::action::{parse_signed, lemma_signed_complete, lemma_signed_sound, verified_view};
use crate::email::{EmailAddress, valid_email};
use crate::hmac::Key;
use crate::models::{MonitorNodeQuery, MonitorView, NodeQuery, NodeView, node_views};
use crate::store::MonitorTable;

verus! {

/// The text that stands for `bytes` in base64 with the URL-safe alphabet and
/// without padding (RFC 4648, section 5).
pub uninterp spec fn base64url(bytes: Seq<u8>) -> Seq<char>;

/// The bytes that `text` stands for in base64 with the URL-safe alphabet and
/// without padding, if it stands for any.
pub uninterp spec fn base64url_decoded(text: Seq<char>) -> Option<Seq<u8>>;

/// Encodes `bytes` for transport in a URL.
///
/// Wraps `Engine::encode` of `base64::engine::general_purpose::URL_SAFE_NO_PAD`.
/// The text is a function of the bytes alone, and the same engine decodes it
/// to the bytes it came from. The encoder panics only where the length of the
/// text does not fit in `usize`, which the bound excludes.
#[verifier::external_body]
fn base64_encode(bytes: &[u8]) -> (text: String)
    requires
        bytes@.len() <= usize::MAX / 4 * 3,
    ensures
        text@ == base64url(bytes@),
        base64url_decoded(text@) == Some(bytes@),
{
    base64::Engine::encode(&base64::engine::general_purpose::URL_SAFE_NO_PAD, bytes)
}

/// Decodes a text that came in a URL.
///
/// Wraps `Engine::decode` of `base64::engine::general_purpose::URL_SAFE_NO_PAD`.
/// Whether the text is accepted, and the bytes it gives, depend on the text alone.
#[verifier::external_body]
fn base64_decode(text: &str) -> (r: Option<Vec<u8>>)
    ensures
        match r {
            Some(bytes) => base64url_decoded(text@) == Some(bytes@),
            None => base64url_decoded(text@) is None,
        },
{
    match base64::Engine::decode(&base64::engine::general_purpose::URL_SAFE_NO_PAD, text) {
        Ok(bytes) => Some(bytes),
        Err(_) => None,
    }
}

/// What a token yields under `key`: the action it carries, where the token
/// is base64 of the canonical bytes of a signed action with a valid address
/// and the tag is the one that `key` gives; a refusal otherwise.
pub open spec fn opened(token: Seq<char>, key: Seq<u8>) -> Result<ActionView, AuthError> {
    match base64url_decoded(token) {
        Some(bytes) => match parse_signed(bytes) {
            Some(signed) => if valid_email(signed.action.email) {
                signed.verify(key)
            } else {
                Err(AuthError)
            },
            None => Err(AuthError),
        },
        None => Err(AuthError),
    }
}

/// Whether bytes of this length can be turned into a token on this machine.
pub open spec fn transportable(len: nat) -> bool {
    len <= usize::MAX / 4 * 3
}

/// Turns a signed action into a token that can ride in a URL. `None` says
/// that the signed action is too long for that.
pub fn seal(signed: &SignedAction) -> (r: Option<String>)
    ensures
        r is Some <==> transportable(signed@.bytes().len()),
        r matches Some(token) ==> token@ == base64url(signed@.bytes()) && base64url_decoded(token@)
            == Some(signed@.bytes()),
{
    let bytes = signed.to_bytes();
    if bytes.len() <= usize::MAX / 4 * 3 {
        Some(base64_encode(bytes.as_slice()))
    } else {
        None
    }
}

/// Reads the action that a token carries and checks its tag under `key`.
/// Whatever is wrong with the token, the refusal is the same.
pub fn unseal(token: &str, key: &Key) -> (r: Result<Action, AuthError>)
    ensures
        verified_view(r) == opened(token@, key@),
{
    let bytes = match base64_decode(token) {
        Some(bytes) => bytes,
        None => {
            return Err(AuthError);
        },
    };
    proof {
        lemma_signed_sound(bytes@);
        if let Some(t) = parse_signed(bytes@) {
            if valid_email(t.action.email) {
                assert(t.wf());
            }
        }
    }
    match SignedAction::from_bytes(bytes.as_slice()) {
        Some(signed) => {
            proof {
                lemma_signed_complete(signed@);
            }
            signed.verify(key)
        },
        None => Err(AuthError),
    }
}

/// What is to be done with a request to subscribe or unsubscribe.
#[derive(Debug, PartialEq, Eq)]
pub enum Prepared {
    /// The request is to add a node that does not exist: nothing is sent.
    NoSuchNode,
    /// The request is to be confirmed by its owner: a message goes to the
    /// action's address, with the link that carries `signed_action`, and
    /// speaks of the node as `node_name`.
    Confirm { signed_action: String, node_name: String },
}

/// Why a request could not be prepared.
#[derive(Clone, Copy, Debug, PartialEq, Eq, Structural)]
pub enum PrepareError {
    /// The node id or the address is too long for the action to be written down.
    TooLong,
}

/// The name under which a confirmation speaks of the action's node: the
/// node's name where it exists, and the id that was asked for where a node
/// that is gone is to be removed. Adding a node that does not exist has none.
pub open spec fn confirmed_name(action: ActionView, node: Option<NodeView>) -> Option<Seq<char>> {
    match node {
        Some(found) => Some(found.name),
        None => if action.op == Operation::Remove {
            Some(action.node)
        } else {
            None
        },
    }
}

/// Prepares a request for confirmation by mail. `node` is the directory's row
/// for the action's node, if it has one.
///
/// The token is made first, and then the node is looked at: a node that does
/// not exist cannot be subscribed to, but a subscription to a node that is
/// gone can still be ended.
pub fn prepare_action(action: &Action, key: &Key, node: Option<&NodeQuery>) -> (r: Result<
    Prepared,
    PrepareError,
>)
    ensures
        r is Ok <==> action@.fits() && transportable(action@.sign(key@).bytes().len()),
        r matches Ok(Prepared::NoSuchNode) ==> node is None && action.op == Operation::Add,
        r matches Ok(Prepared::Confirm { signed_action, node_name }) ==> {
            &&& signed_action@ == base64url(action@.sign(key@).bytes())
            &&& opened(signed_action@, key@) == Ok::<ActionView, AuthError>(action@)
            &&& confirmed_name(
                action@,
                match node {
                    Some(found) => Some(found@),
                    None => None,
                },
            ) == Some(node_name@)
        },
{
    // obtain the token that carries the signed action
    let signed = match action.clone().try_sign(key) {
        Some(signed) => signed,
        None => {
            return Err(PrepareError::TooLong);
        },
    };
    let signed_action = match seal(&signed) {
        Some(token) => token,
        None => {
            return Err(PrepareError::TooLong);
        },
    };
    let _ = action.email.as_str();
    proof {
        lemma_signed_complete(signed@);
    }
    // obtain user-readable node name
    let node_name = match node {
        Some(found) => found.name.clone(),
        None => match action.op {
            // Allow removing dead nodes
            Operation::Remove => action.node.clone(),
            // Trying to add a non-existing node. Stop this.
            Operation::Add => {
                return Ok(Prepared::NoSuchNode);
            },
        },
    };
    Ok(Prepared::Confirm { signed_action, node_name })
}

/// Determines and verifies the action that a token carries, and applies it to
/// the subscription table. Returns the action and whether it changed the
/// table. A token that is refused leaves the table as it is.
pub fn run_action(signed_action: &str, key: &Key, db: &mut MonitorTable) -> (r: Result<
    (Action, bool),
    AuthError,
>)
    ensures
        match r {
            Ok((action, success)) => opened(signed_action@, key@) == Ok::<ActionView, AuthError>(
                action@,
            ) && (final(db)@, success) == action@.run(old(db)@),
            Err(_) => opened(signed_action@, key@) is Err && final(db)@ == old(db)@
                && final(db).rows() == old(db).rows(),
        },
{
    // Determine and verify action
    let action = match unseal(signed_action, key) {
        Ok(a) => a,
        Err(e) => {
            return Err(e);
        },
    };
    // Execute action
    let success = action.run(db);
    Ok((action, success))
}

/// Mathematical value of a subscription joined with its node.
pub struct MonitorNodeView {
    pub monitor: MonitorView,
    pub node: Option<NodeView>,
}

impl View for MonitorNodeQuery {
    type V = MonitorNodeView;

    open spec fn view(&self) -> MonitorNodeView {
        MonitorNodeView {
            monitor: self.monitor@,
            node: match self.node {
                Some(node) => Some(node@),
                None => None,
            },
        }
    }
}

/// The joined rows of a vector, each taken by its view.
pub open spec fn watched_views(rows: Seq<MonitorNodeQuery>) -> Seq<MonitorNodeView> {
    rows.map_values(|r: MonitorNodeQuery| r@)
}

impl MonitorNodeView {
    /// Whether the subscription is joined with the node `id`.
    pub open spec fn joins(self, id: Seq<char>) -> bool {
        self.node matches Some(node) && node.id == id
    }
}

/// Whether one of the subscriptions of `watched` is joined with the node `id`.
pub open spec fn is_watched(watched: Seq<MonitorNodeView>, id: Seq<char>) -> bool {
    exists|i: int| 0 <= i < watched.len() && (#[trigger] watched[i]).joins(id)
}

/// The nodes of `nodes` that no subscription of `watched` is joined with, in their order.
pub open spec fn unwatched(nodes: Seq<NodeView>, watched: Seq<MonitorNodeView>) -> Seq<NodeView>
    decreases nodes.len(),
{
    if nodes.len() == 0 {
        Seq::empty()
    } else if is_watched(watched, nodes.last().id) {
        unwatched(nodes.drop_last(), watched)
    } else {
        unwatched(nodes.drop_last(), watched).push(nodes.last())
    }
}

/// What the page of an address shows: the subscriptions of the address, each
/// with its node where that exists, and the nodes it does not watch yet.
pub struct Listing {
    pub email: EmailAddress,
    pub watched_nodes: Vec<MonitorNodeQuery>,
    pub all_nodes: Vec<NodeQuery>,
}

/// Whether one of the subscriptions of `watched` is joined with the node `id`.
fn watches(watched: &Vec<MonitorNodeQuery>, id: &str) -> (r: bool)
    ensures
        r == is_watched(watched_views(watched@), id@),
{
    let mut i: usize = 0;
    while i < watched.len()
        invariant
            i <= watched.len(),
            forall|j: int| 0 <= j < i ==> !(#[trigger] watched_views(watched@)[j]).joins(id@),
        decreases watched.len() - i,
    {
        proof {
            assert(watched_views(watched@)[i as int] == watched@[i as int]@);
        }
        if let Some(node) = &watched[i].node {
            if crate::util::str_eq(node.id.as_str(), id) {
                return true;
            }
        }
        i += 1;
    }
    false
}

/// Puts together the page of an address from its subscriptions, joined with
/// their nodes, and from all the nodes: of these it keeps the ones that the
/// address does not watch.
pub fn list(email: EmailAddress, watched_nodes: Vec<MonitorNodeQuery>, nodes: Vec<NodeQuery>) -> (r:
    Listing)
    ensures
        r.email@ == email@,
        r.watched_nodes == watched_nodes,
        node_views(r.all_nodes@) == unwatched(node_views(nodes@), watched_views(watched_nodes@)),
{
    let mut all_nodes: Vec<NodeQuery> = Vec::new();
    let ghost all = node_views(nodes@);
    let ghost watched = watched_views(watched_nodes@);
    let mut i: usize = 0;
    while i < nodes.len()
        invariant
            i <= nodes.len(),
            all == node_views(nodes@),
            watched == watched_views(watched_nodes@),
            node_views(all_nodes@) == unwatched(all.take(i as int), watched),
        decreases nodes.len() - i,
    {
        proof {
            assert(all.take(i + 1).drop_last() =~= all.take(i as int));
        }
        let ghost prev = node_views(all_nodes@);
        if !watches(&watched_nodes, nodes[i].id.as_str()) {
            all_nodes.push(nodes[i].clone());
            proof {
                assert(node_views(all_nodes@) =~= prev.push(all[i as int]));
            }
        }
        i += 1;
    }
    proof {
        assert(all.take(nodes.len() as int) =~= all);
    }
    Listing { email, watched_nodes, all_nodes }
}

} // verus!
