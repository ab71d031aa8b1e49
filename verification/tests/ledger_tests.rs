use gif_portal::identity::{Address, Signer};
use gif_portal::ledger::{add_gif, start_stuff_off, AddGif, Ledger, LedgerError, StartStuffOff};

fn addr(b: u8) -> Address {
    Address::new([b; 32])
}

fn init_ctx(base: Address, payer: Address, signed_by: Address) -> StartStuffOff {
    StartStuffOff { base_account: base, user: payer, signer: Signer::new(signed_by) }
}

fn append_ctx(base: Address, submitter: Address, signed_by: Address) -> AddGif {
    AddGif { base_account: base, user: submitter, signer: Signer::new(signed_by) }
}

#[test]
fn initialize_creates_empty_record() {
    let mut ledger = Ledger::new();
    let a = addr(1);
    let payer = addr(9);
    let r = start_stuff_off(&mut ledger, &init_ctx(a, payer, payer));
    assert_eq!(r, Ok(()));
    let record = ledger.get_record(&a).expect("record exists after initialize");
    assert_eq!(record.total_gifs, 0);
    assert_eq!(record.gif_list.len(), 0);
}

#[test]
fn initialize_twice_fails_with_already_initialized() {
    let mut ledger = Ledger::new();
    let a = addr(1);
    let payer = addr(9);
    assert_eq!(start_stuff_off(&mut ledger, &init_ctx(a, payer, payer)), Ok(()));
    assert_eq!(
        start_stuff_off(&mut ledger, &init_ctx(a, payer, payer)),
        Err(LedgerError::AlreadyInitialized)
    );
    let record = ledger.get_record(&a).expect("first record still there");
    assert_eq!(record.total_gifs, 0);
}

#[test]
fn initialize_with_wrong_signer_fails_unauthorized_payer() {
    let mut ledger = Ledger::new();
    let a = addr(1);
    let payer = addr(9);
    let intruder = addr(8);
    assert_eq!(
        start_stuff_off(&mut ledger, &init_ctx(a, payer, intruder)),
        Err(LedgerError::UnauthorizedPayer)
    );
    assert!(ledger.get_record(&a).is_none());
}

#[test]
fn append_to_missing_record_fails_record_not_found() {
    let mut ledger = Ledger::new();
    let a = addr(1);
    let user = addr(2);
    let r = add_gif(&mut ledger, &append_ctx(a, user, user), String::from("x"));
    assert_eq!(r, Err(LedgerError::RecordNotFound));
}

#[test]
fn append_with_wrong_signer_fails_and_changes_nothing() {
    let mut ledger = Ledger::new();
    let a = addr(1);
    let payer = addr(9);
    let user_x = addr(2);
    let intruder = addr(3);
    assert_eq!(start_stuff_off(&mut ledger, &init_ctx(a, payer, payer)), Ok(()));
    let r = add_gif(&mut ledger, &append_ctx(a, user_x, intruder), String::from("x"));
    assert_eq!(r, Err(LedgerError::UnauthorizedSubmitter));
    let record = ledger.get_record(&a).expect("record exists");
    assert_eq!(record.total_gifs, 0);
    assert_eq!(record.gif_list.len(), 0);
}

#[test]
fn append_scenario_matches_expected_states() {
    let mut ledger = Ledger::new();
    let a = addr(1);
    let payer = addr(9);
    let user_x = addr(2);
    let user_y = addr(3);
    assert_eq!(start_stuff_off(&mut ledger, &init_ctx(a, payer, payer)), Ok(()));
    {
        let record = ledger.get_record(&a).expect("record exists");
        assert_eq!(record.total_gifs, 0);
        assert_eq!(record.gif_list.len(), 0);
    }
    let r1 = add_gif(
        &mut ledger,
        &append_ctx(a, user_x, user_x),
        String::from("https://example.com/1.gif"),
    );
    assert_eq!(r1, Ok(()));
    {
        let record = ledger.get_record(&a).expect("record exists");
        assert_eq!(record.total_gifs, 1);
        assert_eq!(record.gif_list.len(), 1);
        assert_eq!(record.gif_list[0].gif_link, "https://example.com/1.gif");
        assert_eq!(record.gif_list[0].user_address.bytes, [2u8; 32]);
    }
    let r2 = add_gif(&mut ledger, &append_ctx(a, user_y, user_y), String::new());
    assert_eq!(r2, Ok(()));
    {
        let record = ledger.get_record(&a).expect("record exists");
        assert_eq!(record.total_gifs, 2);
        assert_eq!(record.gif_list.len(), 2);
        assert_eq!(record.gif_list[1].gif_link, "");
        assert_eq!(record.gif_list[1].user_address.bytes, [3u8; 32]);
    }
}

#[test]
fn appends_keep_call_order_and_count() {
    let mut ledger = Ledger::new();
    let a = addr(1);
    let payer = addr(9);
    assert_eq!(start_stuff_off(&mut ledger, &init_ctx(a, payer, payer)), Ok(()));
    for i in 0..10u8 {
        let user = addr(100 + i);
        let link = format!("https://example.com/{}.gif", i);
        assert_eq!(add_gif(&mut ledger, &append_ctx(a, user, user), link), Ok(()));
    }
    let record = ledger.get_record(&a).expect("record exists");
    assert_eq!(record.total_gifs, 10);
    assert_eq!(record.gif_list.len(), 10);
    for i in 0..10u8 {
        let entry = &record.gif_list[i as usize];
        assert_eq!(entry.gif_link, format!("https://example.com/{}.gif", i));
        assert_eq!(entry.user_address.bytes, [100 + i; 32]);
    }
}

#[test]
fn append_over_capacity_fails_and_changes_nothing() {
    let mut ledger = Ledger::new();
    let a = addr(1);
    let payer = addr(9);
    let user = addr(2);
    assert_eq!(start_stuff_off(&mut ledger, &init_ctx(a, payer, payer)), Ok(()));
    // An empty record takes 12 bytes; an entry adds 36 plus its link, so
    // a link of 8953 bytes overflows the 9000-byte slot by exactly one.
    let too_long = "a".repeat(8953);
    let r = add_gif(&mut ledger, &append_ctx(a, user, user), too_long);
    assert_eq!(r, Err(LedgerError::CapacityExceeded));
    let record = ledger.get_record(&a).expect("record exists");
    assert_eq!(record.total_gifs, 0);
    assert_eq!(record.gif_list.len(), 0);
}

#[test]
fn append_fills_slot_exactly_then_rejects_even_empty_link() {
    let mut ledger = Ledger::new();
    let a = addr(1);
    let payer = addr(9);
    let user = addr(2);
    assert_eq!(start_stuff_off(&mut ledger, &init_ctx(a, payer, payer)), Ok(()));
    // 12 + 36 + 8952 == 9000: fits exactly.
    let just_fits = "a".repeat(8952);
    assert_eq!(add_gif(&mut ledger, &append_ctx(a, user, user), just_fits), Ok(()));
    let r = add_gif(&mut ledger, &append_ctx(a, user, user), String::new());
    assert_eq!(r, Err(LedgerError::CapacityExceeded));
    let record = ledger.get_record(&a).expect("record exists");
    assert_eq!(record.total_gifs, 1);
    assert_eq!(record.gif_list.len(), 1);
}

#[test]
fn records_at_different_addresses_are_independent() {
    let mut ledger = Ledger::new();
    let a = addr(1);
    let b = addr(2);
    let payer = addr(9);
    let user = addr(3);
    assert_eq!(start_stuff_off(&mut ledger, &init_ctx(a, payer, payer)), Ok(()));
    assert_eq!(start_stuff_off(&mut ledger, &init_ctx(b, payer, payer)), Ok(()));
    assert_eq!(add_gif(&mut ledger, &append_ctx(a, user, user), String::from("only-a")), Ok(()));
    let ra = ledger.get_record(&a).expect("record a");
    let rb = ledger.get_record(&b).expect("record b");
    assert_eq!(ra.total_gifs, 1);
    assert_eq!(rb.total_gifs, 0);
}

#[test]
fn address_equality_is_by_bytes() {
    let mut first = [0u8; 32];
    first[0] = 1;
    let mut second = [0u8; 32];
    second[0] = 1;
    let mut third = [0u8; 32];
    third[31] = 1;
    assert!(Address::new(first).equals(&Address::new(second)));
    assert!(!Address::new(first).equals(&Address::new(third)));
}
