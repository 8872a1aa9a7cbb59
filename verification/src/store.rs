//! The store's data model and its two operations.

use vstd::prelude::*;

use crate::codec::lemma_ser_items_len_lower;
use crate::codec::lemma_ser_items_push;
use crate::codec::serialized_len;
use crate::codec::spec_ser_account;

verus! {

/// Number of bytes reserved for the store's serialized form when its backing
/// storage is allocated. An append that would grow the serialized store past
/// this budget is refused.
pub const RESERVED_SPACE: usize = 9000;

/// Length in bytes of a submitter's address.
pub const USER_ADDRESS_LEN: usize = 32;

/// Mathematical model of one entry: the link's bytes and the submitter's
/// 32-byte address.
#[verifier::ext_equal]
pub ghost struct ItemView {
    pub gif_link: Seq<u8>,
    pub user_address: Seq<u8>,
}

/// One submitted entry: a link (held as its bytes) together with the address
/// of the account that submitted it. Immutable once appended.
#[derive(Debug, Clone, PartialEq, Eq)]
pub struct ItemStruct {
    pub gif_link: Vec<u8>,
    pub user_address: Vec<u8>,
}

impl View for ItemStruct {
    type V = ItemView;

    open spec fn view(&self) -> ItemView {
        ItemView { gif_link: self.gif_link@, user_address: self.user_address@ }
    }
}

/// The models of a list of entries, in order.
pub open spec fn items_view(items: Seq<ItemStruct>) -> Seq<ItemView> {
    items.map_values(|it: ItemStruct| it@)
}

/// Mathematical model of the store: the counter and the entries in
/// submission order.
#[verifier::ext_equal]
pub ghost struct BaseAccountView {
    pub total_gifs: u64,
    pub gif_list: Seq<ItemView>,
}

/// The persistent record: a counter of successful appends and the
/// append-only list of entries, in submission order.
#[derive(Debug, Clone, PartialEq, Eq)]
pub struct BaseAccount {
    pub total_gifs: u64,
    pub gif_list: Vec<ItemStruct>,
}

impl View for BaseAccount {
    type V = BaseAccountView;

    open spec fn view(&self) -> BaseAccountView {
        BaseAccountView { total_gifs: self.total_gifs, gif_list: items_view(self.gif_list@) }
    }
}

/// A well-formed entry: the address has its fixed length and the link is
/// short enough for its 32-bit length prefix.
pub open spec fn item_wf(i: ItemView) -> bool {
    &&& i.user_address.len() == USER_ADDRESS_LEN
    &&& i.gif_link.len() <= u32::MAX
}

/// A well-formed store: the counter equals the number of entries, every
/// entry is well formed, and the entry count fits its 32-bit length prefix.
pub open spec fn account_wf(a: BaseAccountView) -> bool {
    &&& a.total_gifs == a.gif_list.len()
    &&& a.gif_list.len() <= u32::MAX
    &&& forall|i: int| 0 <= i < a.gif_list.len() ==> item_wf(#[trigger] a.gif_list[i])
}

/// The store as initialization creates it: zero counter, no entries.
pub open spec fn empty_account() -> BaseAccountView {
    BaseAccountView { total_gifs: 0, gif_list: Seq::empty() }
}

/// A store that the operations can have produced: well formed and with its
/// serialized form inside the reserved space.
pub open spec fn account_valid(a: BaseAccountView) -> bool {
    &&& account_wf(a)
    &&& spec_ser_account(a).len() <= RESERVED_SPACE
}

/// Why an operation was refused.
#[derive(Debug, Clone, Copy, PartialEq, Eq, Structural)]
pub enum StoreError {
    /// The backing storage already holds an initialized store.
    AlreadyInitialized,
    /// The caller could not fund the reserved storage space.
    AllocationError,
    /// The append would grow the serialized store past the reserved space.
    CapacityExceeded,
}

/// The store after recording one entry: the counter up by one, the entry at
/// the end.
pub open spec fn spec_grow(a: BaseAccountView, i: ItemView) -> BaseAccountView {
    BaseAccountView { total_gifs: (a.total_gifs + 1) as u64, gif_list: a.gif_list.push(i) }
}

/// State and result of the initialization operation. `funded` says whether
/// the host allocator granted the reserved space at the caller's expense.
pub open spec fn spec_init(slot: Option<BaseAccountView>, funded: bool) -> (Option<
    BaseAccountView,
>, Result<(), StoreError>) {
    match slot {
        Some(a) => (Some(a), Err(StoreError::AlreadyInitialized)),
        None => if funded {
            (Some(empty_account()), Ok(()))
        } else {
            (None, Err(StoreError::AllocationError))
        },
    }
}

/// State and result of the append operation: the entry is recorded if and
/// only if the grown store still fits the reserved space; otherwise the
/// store is left exactly as it was.
pub open spec fn spec_append(a: BaseAccountView, link: Seq<u8>, user: Seq<u8>) -> (BaseAccountView, Result<(), StoreError>) {
    let grown = spec_grow(a, ItemView { gif_link: link, user_address: user });
    if spec_ser_account(grown).len() <= RESERVED_SPACE {
        (grown, Ok(()))
    } else {
        (a, Err(StoreError::CapacityExceeded))
    }
}

/// The model of an optional store.
pub open spec fn slot_view(slot: Option<BaseAccount>) -> Option<BaseAccountView> {
    match slot {
        Some(a) => Some(a@),
        None => None,
    }
}

/// The account arguments of the initialization entry point, reduced to the
/// plain fact the operation depends on: whether the host allocator, paid
/// out of the payer's balance, granted the reserved space.
pub struct StartStuffOff {
    pub funded: bool,
}

/// The account arguments of the append entry point, reduced to what the
/// operation reads of them: the signing submitter's 32-byte address.
pub struct AddGifs {
    pub user: Vec<u8>,
}

/// Initialize the store in `slot`: zero counter, no entries. Without the
/// allocator's grant in `accounts` nothing is created and the operation
/// fails with `AllocationError`. A slot that already holds a store is
/// refused with `AlreadyInitialized` and left untouched.
pub fn start_stuff_off(slot: &mut Option<BaseAccount>, accounts: &StartStuffOff) -> (r: Result<
    (),
    StoreError,
>)
    ensures
        slot_view(*final(slot)) == spec_init(slot_view(*old(slot)), accounts.funded).0,
        r == spec_init(slot_view(*old(slot)), accounts.funded).1,
        r is Ok <==> ((*old(slot)) is None && accounts.funded),
        r is Err ==> *final(slot) == *old(slot),
        ((*old(slot)) is None && accounts.funded ==> ((*final(slot)) matches Some(a)
            && a@ == empty_account())),
{
    if slot.is_some() {
        Err(StoreError::AlreadyInitialized)
    } else if accounts.funded {
        let account = BaseAccount { total_gifs: 0, gif_list: Vec::new() };
        proof {
            assert(account@ =~= empty_account());
        }
        *slot = Some(account);
        Ok(())
    } else {
        Err(StoreError::AllocationError)
    }
}

/// Append one entry: the submitted link and the submitter's address. On
/// success the entry lands at the end of the list and the counter goes up
/// by one; nothing else changes. If the grown store would overrun the
/// reserved space, the append fails with `CapacityExceeded` and the store
/// is left exactly as it was.
pub fn add_gifs(base_account: &mut BaseAccount, accounts: AddGifs, gif_link: Vec<u8>) -> (r:
    Result<(), StoreError>)
    requires
        account_valid(old(base_account)@),
        accounts.user@.len() == USER_ADDRESS_LEN,
    ensures
        final(base_account)@ == spec_append(old(base_account)@, gif_link@, accounts.user@).0,
        r == spec_append(old(base_account)@, gif_link@, accounts.user@).1,
        account_valid(final(base_account)@),
        r is Err ==> *final(base_account) == *old(base_account),
{
    let ghost a0 = base_account@;
    let ghost item_v = ItemView { gif_link: gif_link@, user_address: accounts.user@ };
    let ghost grown = spec_grow(a0, item_v);
    proof {
        lemma_ser_items_push(a0.gif_list, item_v);
        assert(spec_ser_account(grown).len() == spec_ser_account(a0).len() + 36
            + gif_link@.len());
    }
    let cur = serialized_len(base_account);
    let link_len = gif_link.len();
    if link_len > RESERVED_SPACE || cur + 36 + link_len > RESERVED_SPACE {
        return Err(StoreError::CapacityExceeded);
    }
    proof {
        lemma_ser_items_len_lower(a0.gif_list);
        assert(base_account.total_gifs < u64::MAX);
    }
    let item = ItemStruct { gif_link, user_address: accounts.user };
    base_account.gif_list.push(item);
    base_account.total_gifs = base_account.total_gifs + 1;
    proof {
        assert(items_view(base_account.gif_list@) =~= a0.gif_list.push(item_v));
        assert(base_account@ =~= grown);
    }
    Ok(())
}

/// One externally invocable request, as a tagged variant.
pub enum Request {
    /// Create the store: zero counter, no entries.
    Initialize,
    /// Record one submitted link.
    AppendEntry { gif_link: Vec<u8> },
}

/// Dispatch one request against the slot by an explicit match.
/// `user_address` is the signer's address; `funded` reports the host
/// allocator's verdict and matters only to initialization.
pub fn dispatch(slot: Option<BaseAccount>, req: Request, user_address: Vec<u8>, funded: bool) -> (out: (Option<BaseAccount>, Result<(), StoreError>))
    requires
        user_address@.len() == USER_ADDRESS_LEN,
        (slot matches Some(a) ==> account_valid(a@)),
        (req matches Request::AppendEntry { .. } ==> slot is Some),
    ensures
        (match req {
            Request::Initialize => {
                &&& slot_view(out.0) == spec_init(slot_view(slot), funded).0
                &&& out.1 == spec_init(slot_view(slot), funded).1
            },
            Request::AppendEntry { gif_link } => {
                &&& out.0 matches Some(a) && a@ == spec_append(
                    slot->Some_0@,
                    gif_link@,
                    user_address@,
                ).0
                &&& out.1 == spec_append(slot->Some_0@, gif_link@, user_address@).1
            },
        }),
        (out.0 matches Some(a) ==> account_valid(a@)),
{
    match req {
        Request::Initialize => {
            let mut s = slot;
            let r = start_stuff_off(&mut s, &StartStuffOff { funded });
            proof {
                if s is Some {
                    assert(spec_ser_account(empty_account()).len() == 12);
                }
            }
            (s, r)
        },
        Request::AppendEntry { gif_link } => match slot {
            Some(mut account) => {
                let r = add_gifs(&mut account, AddGifs { user: user_address }, gif_link);
                (Some(account), r)
            },
            None => {
                proof {
                    assert(false);
                }
                (None, Err(StoreError::AlreadyInitialized))
            },
        },
    }
}

/// The store after a run of recorded entries, in order.
pub open spec fn spec_grow_all(a: BaseAccountView, items: Seq<ItemView>) -> BaseAccountView
    decreases items.len(),
{
    if items.len() == 0 {
        a
    } else {
        spec_grow_all(spec_grow(a, items[0]), items.drop_first())
    }
}

/// Successful appends are recorded one for one: a run of them adds exactly
/// its entries at the end of the list, in order, and raises the counter by
/// their number.
pub proof fn lemma_grow_all_recorded(a: BaseAccountView, items: Seq<ItemView>)
    requires
        a.total_gifs + items.len() <= u64::MAX,
    ensures
        spec_grow_all(a, items).total_gifs == a.total_gifs + items.len(),
        spec_grow_all(a, items).gif_list == a.gif_list + items,
    decreases items.len(),
{
    if items.len() == 0 {
        assert(a.gif_list + items =~= a.gif_list);
    } else {
        lemma_grow_all_recorded(spec_grow(a, items[0]), items.drop_first());
        assert(a.gif_list.push(items[0]) + items.drop_first() =~= a.gif_list + items);
    }
}

/// From a freshly initialized store, the counter equals the number of
/// appends and the i-th entry is the i-th submitted pair, for every run of
/// successful appends.
pub proof fn lemma_appends_from_empty(items: Seq<ItemView>)
    requires
        items.len() <= u64::MAX,
    ensures
        spec_grow_all(empty_account(), items).total_gifs == items.len(),
        spec_grow_all(empty_account(), items).gif_list == items,
{
    lemma_grow_all_recorded(empty_account(), items);
    assert(Seq::<ItemView>::empty() + items =~= items);
}

/// Initialization is idempotent-rejecting: once a store exists in the
/// slot, a later initialization attempt, funded or not, fails with
/// `AlreadyInitialized` and leaves the slot exactly as it was.
pub proof fn lemma_second_init_rejected(
    slot: Option<BaseAccountView>,
    funded: bool,
    funded2: bool,
)
    requires
        spec_init(slot, funded).1 is Ok,
    ensures
        spec_init(spec_init(slot, funded).0, funded2) == (
            spec_init(slot, funded).0,
            Err::<(), StoreError>(StoreError::AlreadyInitialized),
        ),
{
}

/// Append-only: whatever an append returns, the entries already present
/// are unchanged, in place and in order.
pub proof fn lemma_append_preserves_entries(a: BaseAccountView, link: Seq<u8>, user: Seq<u8>)
    ensures
        spec_append(a, link, user).0.gif_list.take(a.gif_list.len() as int) == a.gif_list,
        forall|i: int|
            0 <= i < a.gif_list.len() ==> spec_append(a, link, user).0.gif_list[i]
                == a.gif_list[i],
{
    assert(spec_append(a, link, user).0.gif_list.take(a.gif_list.len() as int) =~= a.gif_list);
}

/// A refused append is atomic: it happens exactly when the grown store
/// would overrun the reserved space, and it leaves the store, and with it
/// the store's serialized bytes, exactly as they were.
pub proof fn lemma_failed_append_atomic(a: BaseAccountView, link: Seq<u8>, user: Seq<u8>)
    ensures
        spec_append(a, link, user).1 is Err <==> spec_ser_account(
            spec_grow(a, ItemView { gif_link: link, user_address: user }),
        ).len() > RESERVED_SPACE,
        spec_append(a, link, user).1 is Err ==> spec_append(a, link, user).1 == Err::<
            (),
            StoreError,
        >(StoreError::CapacityExceeded),
        spec_append(a, link, user).1 is Err ==> spec_append(a, link, user).0 == a
            && spec_ser_account(spec_append(a, link, user).0) == spec_ser_account(a),
{
}

} // verus!
