//! Behaviour of the two entry points against a slot of backing storage.

use solana_gifs::store::AddGifs;
use solana_gifs::store::BaseAccount;
use solana_gifs::store::Request;
use solana_gifs::store::StartStuffOff;
use solana_gifs::store::StoreError;
use solana_gifs::store::RESERVED_SPACE;
use solana_gifs::store::add_gifs;
use solana_gifs::store::dispatch;
use solana_gifs::store::start_stuff_off;

fn addr(b: u8) -> Vec<u8> {
    vec![b; 32]
}

fn funded() -> StartStuffOff {
    StartStuffOff { funded: true }
}

#[test]
fn initialize_creates_empty_store() {
    let mut slot: Option<BaseAccount> = None;
    let r = start_stuff_off(&mut slot, &funded());
    assert_eq!(r, Ok(()));
    let account = slot.expect("store was created");
    assert_eq!(account.total_gifs, 0);
    assert!(account.gif_list.is_empty());
}

#[test]
fn initialize_unfunded_fails() {
    let mut slot: Option<BaseAccount> = None;
    let r = start_stuff_off(&mut slot, &StartStuffOff { funded: false });
    assert_eq!(r, Err(StoreError::AllocationError));
    assert!(slot.is_none());
}

#[test]
fn second_initialize_rejected() {
    let mut slot: Option<BaseAccount> = None;
    assert_eq!(start_stuff_off(&mut slot, &funded()), Ok(()));
    {
        let account = slot.as_mut().expect("store was created");
        let r = add_gifs(account, AddGifs { user: addr(1) }, b"http://a.gif".to_vec());
        assert_eq!(r, Ok(()));
    }
    let r = start_stuff_off(&mut slot, &funded());
    assert_eq!(r, Err(StoreError::AlreadyInitialized));
    let account = slot.expect("store was kept");
    assert_eq!(account.total_gifs, 1);
    assert_eq!(account.gif_list.len(), 1);
    assert_eq!(account.gif_list[0].gif_link, b"http://a.gif".to_vec());
}

#[test]
fn appends_are_recorded_in_order() {
    let mut slot: Option<BaseAccount> = None;
    assert_eq!(start_stuff_off(&mut slot, &funded()), Ok(()));
    let mut account = slot.expect("store was created");

    let r = add_gifs(&mut account, AddGifs { user: addr(1) }, b"http://a.gif".to_vec());
    assert_eq!(r, Ok(()));
    assert_eq!(account.total_gifs, 1);
    assert_eq!(account.gif_list.len(), 1);
    assert_eq!(account.gif_list[0].gif_link, b"http://a.gif".to_vec());
    assert_eq!(account.gif_list[0].user_address, addr(1));

    let r = add_gifs(&mut account, AddGifs { user: addr(2) }, b"http://b.gif".to_vec());
    assert_eq!(r, Ok(()));
    assert_eq!(account.total_gifs, 2);
    assert_eq!(account.gif_list.len(), 2);
    assert_eq!(account.gif_list[0].gif_link, b"http://a.gif".to_vec());
    assert_eq!(account.gif_list[0].user_address, addr(1));
    assert_eq!(account.gif_list[1].gif_link, b"http://b.gif".to_vec());
    assert_eq!(account.gif_list[1].user_address, addr(2));

    // A link longer than the whole reserved space can never fit.
    let before = account.clone();
    let r = add_gifs(&mut account, AddGifs { user: addr(3) }, vec![b'x'; RESERVED_SPACE + 1]);
    assert_eq!(r, Err(StoreError::CapacityExceeded));
    assert_eq!(account.total_gifs, 2);
    assert_eq!(account, before);
}

#[test]
fn append_fills_budget_exactly_then_fails() {
    let mut slot: Option<BaseAccount> = None;
    assert_eq!(start_stuff_off(&mut slot, &funded()), Ok(()));
    let mut account = slot.expect("store was created");

    // An empty store serializes to 12 bytes; one entry adds 36 bytes plus
    // its link, so this link makes the store exactly RESERVED_SPACE bytes.
    let exact = RESERVED_SPACE - 12 - 36;
    let r = add_gifs(&mut account, AddGifs { user: addr(9) }, vec![b'y'; exact]);
    assert_eq!(r, Ok(()));
    assert_eq!(account.total_gifs, 1);

    // Even the shortest further entry would overrun the budget.
    let before = account.clone();
    let r = add_gifs(&mut account, AddGifs { user: addr(9) }, Vec::new());
    assert_eq!(r, Err(StoreError::CapacityExceeded));
    assert_eq!(account, before);
}

#[test]
fn dispatch_runs_both_operations() {
    let (slot, r) = dispatch(None, Request::Initialize, addr(0), true);
    assert_eq!(r, Ok(()));
    let (slot, r) = dispatch(
        slot,
        Request::AppendEntry { gif_link: b"http://a.gif".to_vec() },
        addr(4),
        false,
    );
    assert_eq!(r, Ok(()));
    let account = slot.expect("store exists");
    assert_eq!(account.total_gifs, 1);
    assert_eq!(account.gif_list[0].user_address, addr(4));

    let (slot, r) = dispatch(Some(account), Request::Initialize, addr(0), true);
    assert_eq!(r, Err(StoreError::AlreadyInitialized));
    assert_eq!(slot.expect("store was kept").total_gifs, 1);
}
