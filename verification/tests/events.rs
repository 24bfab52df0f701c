use near_collections::events::{NearEvent, NftBurnData, NftMintData, NftTransferData};

#[test]
fn nft_mint() {
    let owner_id = "bob";
    let token_ids = vec!["0", "1"];
    let mint_log = NftMintData::new(owner_id, token_ids, None);
    let event_log = NearEvent::nft_mint(vec![mint_log]);
    assert_eq!(
        event_log.to_json_string(),
        r#"{"standard":"nep171","version":"1.0.0","event":"nft_mint","data":[{"owner_id":"bob","token_ids":["0","1"]}]}"#
    );
}

#[test]
fn nft_mints() {
    let owner_id = "bob";
    let token_ids = vec!["0", "1"];
    let mint_log = NftMintData::new(owner_id, token_ids, None);
    let event_log = NearEvent::nft_mint(vec![
        mint_log,
        NftMintData::new("alice", vec!["2", "3"], Some("has memo")),
    ]);
    assert_eq!(
        event_log.to_json_string(),
        r#"{"standard":"nep171","version":"1.0.0","event":"nft_mint","data":[{"owner_id":"bob","token_ids":["0","1"]},{"owner_id":"alice","token_ids":["2","3"],"memo":"has memo"}]}"#
    );
}

#[test]
fn nft_burn() {
    let owner_id = "bob";
    let token_ids = vec!["0", "1"];
    let burn_data = NftBurnData::new(owner_id, token_ids, None, None);
    let log = NearEvent::nft_burn(vec![burn_data]).to_json_string();
    assert_eq!(
        log,
        r#"{"standard":"nep171","version":"1.0.0","event":"nft_burn","data":[{"owner_id":"bob","token_ids":["0","1"]}]}"#
    );
}

#[test]
fn nft_burns() {
    let owner_id = "bob";
    let token_ids = vec!["0", "1"];
    let log = NearEvent::nft_burn(vec![
        NftBurnData::new("alice", vec!["2", "3"], Some("4"), Some("has memo")),
        NftBurnData::new(owner_id, token_ids, None, None),
    ])
    .to_json_string();
    assert_eq!(
        log,
        r#"{"standard":"nep171","version":"1.0.0","event":"nft_burn","data":[{"owner_id":"alice","token_ids":["2","3"],"authorized_id":"4","memo":"has memo"},{"owner_id":"bob","token_ids":["0","1"]}]}"#
    );
}

#[test]
fn nft_transfer() {
    let old_owner_id = "bob".to_string();
    let new_owner_id = "alice";
    let token_ids = vec!["0", "1"];
    let log = NearEvent::nft_transfer(vec![NftTransferData::new(
        &old_owner_id,
        new_owner_id,
        token_ids,
        None,
        None,
    )])
    .to_json_string();
    assert_eq!(
        log,
        r#"{"standard":"nep171","version":"1.0.0","event":"nft_transfer","data":[{"old_owner_id":"bob","new_owner_id":"alice","token_ids":["0","1"]}]}"#
    );
}

#[test]
fn nft_transfers() {
    let old_owner_id = "bob";
    let new_owner_id = "alice";
    let token_ids = vec!["0", "1"];
    let log = NearEvent::nft_transfer(vec![
        NftTransferData::new(
            new_owner_id,
            old_owner_id,
            vec!["2", "3"],
            Some("4"),
            Some("has memo"),
        ),
        NftTransferData::new(old_owner_id, new_owner_id, token_ids, None, None),
    ])
    .to_json_string();
    assert_eq!(
        log,
        r#"{"standard":"nep171","version":"1.0.0","event":"nft_transfer","data":[{"old_owner_id":"alice","new_owner_id":"bob","token_ids":["2","3"],"authorized_id":"4","memo":"has memo"},{"old_owner_id":"bob","new_owner_id":"alice","token_ids":["0","1"]}]}"#
    );
}

#[test]
fn event_string_is_marked() {
    let event = NearEvent::nft_mint(vec![NftMintData::new("bob", vec!["0"], None)]);
    let line = event.to_json_event_string();
    assert_eq!(
        line,
        r#"EVENT_JSON:{"standard":"nep171","version":"1.0.0","event":"nft_mint","data":[{"owner_id":"bob","token_ids":["0"]}]}"#
    );
}

#[test]
fn json_escaping_matches_the_format() {
    let event = NearEvent::nft_mint(vec![NftMintData::new(
        "b\"ob\\",
        vec!["0\n", "1\t"],
        Some("ctl \u{1f} and nl\n"),
    )]);
    assert_eq!(
        event.to_json_string(),
        "{\"standard\":\"nep171\",\"version\":\"1.0.0\",\"event\":\"nft_mint\",\"data\":[{\"owner_id\":\"b\\\"ob\\\\\",\"token_ids\":[\"0\\n\",\"1\\t\"],\"memo\":\"ctl \\u001f and nl\\n\"}]}"
    );
}
