//! Standard-event records and their log line.
//!
//! An event is rendered as one JSON object with a fixed field order —
//! standard, version, event name, data — prefixed by `EVENT_JSON:`, and
//! written to the process log.  The rendering is verified character by
//! character against the spec functions below.

use vstd::prelude::*;
use vstd::string::StringExecFns;
use std::io::Write;
use crate::json::{
    quoted, str_array, comma_join, push_str_chars, push_quoted, push_str_array,
    chars_to_string,
};

verus! {

/// Data of one mint event: who received which tokens.
pub struct NftMintData {
    pub owner_id: String,
    pub token_ids: Vec<String>,
    pub memo: Option<String>,
}

/// Data of one transfer event: tokens moving between two owners.
pub struct NftTransferData {
    pub old_owner_id: String,
    pub new_owner_id: String,
    pub token_ids: Vec<String>,
    pub authorized_id: Option<String>,
    pub memo: Option<String>,
}

/// Data of one burn event: whose tokens were destroyed.
pub struct NftBurnData {
    pub owner_id: String,
    pub token_ids: Vec<String>,
    pub authorized_id: Option<String>,
    pub memo: Option<String>,
}

/// The event kinds of the non-fungible-token standard.
pub enum Nep171EventKind {
    NftMint(Vec<NftMintData>),
    NftTransfer(Vec<NftTransferData>),
    NftBurn(Vec<NftBurnData>),
}

/// An event of the non-fungible-token standard, with its version.
pub struct Nep171Event {
    pub version: String,
    pub event_kind: Nep171EventKind,
}

/// An event of one of the supported standards.
pub enum NearEvent {
    Nep171(Nep171Event),
}

/// An optional string field: nothing when absent, `prefix ++ literal` when
/// present.
pub open spec fn opt_field(prefix: Seq<char>, v: Option<Seq<char>>) -> Seq<char> {
    match v {
        Option::None => Seq::empty(),
        Option::Some(s) => prefix + quoted(s),
    }
}

/// The JSON object for one mint record.
pub open spec fn mint_json(d: NftMintData) -> Seq<char> {
    "{\"owner_id\":"@ + quoted(d.owner_id@) + ",\"token_ids\":"@ + str_array(
        d.token_ids.deep_view(),
    ) + opt_field(",\"memo\":"@, d.memo.deep_view()) + "}"@
}

/// The JSON object for one transfer record.
pub open spec fn transfer_json(d: NftTransferData) -> Seq<char> {
    "{\"old_owner_id\":"@ + quoted(d.old_owner_id@) + ",\"new_owner_id\":"@ + quoted(
        d.new_owner_id@,
    ) + ",\"token_ids\":"@ + str_array(d.token_ids.deep_view()) + opt_field(
        ",\"authorized_id\":"@,
        d.authorized_id.deep_view(),
    ) + opt_field(",\"memo\":"@, d.memo.deep_view()) + "}"@
}

/// The JSON object for one burn record.
pub open spec fn burn_json(d: NftBurnData) -> Seq<char> {
    "{\"owner_id\":"@ + quoted(d.owner_id@) + ",\"token_ids\":"@ + str_array(
        d.token_ids.deep_view(),
    ) + opt_field(",\"authorized_id\":"@, d.authorized_id.deep_view()) + opt_field(
        ",\"memo\":"@,
        d.memo.deep_view(),
    ) + "}"@
}

/// The JSON objects of a list of mint records.
pub open spec fn mint_list(ds: Seq<NftMintData>) -> Seq<Seq<char>> {
    ds.map_values(|d: NftMintData| mint_json(d))
}

/// The JSON objects of a list of transfer records.
pub open spec fn transfer_list(ds: Seq<NftTransferData>) -> Seq<Seq<char>> {
    ds.map_values(|d: NftTransferData| transfer_json(d))
}

/// The JSON objects of a list of burn records.
pub open spec fn burn_list(ds: Seq<NftBurnData>) -> Seq<Seq<char>> {
    ds.map_values(|d: NftBurnData| burn_json(d))
}

/// The full JSON object for an event: standard, version, event name and
/// data array, in that order.
pub open spec fn event_json(e: NearEvent) -> Seq<char> {
    match e {
        NearEvent::Nep171(ev) => match ev.event_kind {
            Nep171EventKind::NftMint(ds) => "{\"standard\":\"nep171\",\"version\":"@ + quoted(
                ev.version@,
            ) + ",\"event\":\"nft_mint\",\"data\":["@ + comma_join(mint_list(ds@)) + "]}"@,
            Nep171EventKind::NftTransfer(ds) => "{\"standard\":\"nep171\",\"version\":"@
                + quoted(ev.version@) + ",\"event\":\"nft_transfer\",\"data\":["@ + comma_join(
                transfer_list(ds@),
            ) + "]}"@,
            Nep171EventKind::NftBurn(ds) => "{\"standard\":\"nep171\",\"version\":"@ + quoted(
                ev.version@,
            ) + ",\"event\":\"nft_burn\",\"data\":["@ + comma_join(burn_list(ds@)) + "]}"@,
        },
    }
}

/// The log line for an event: the JSON object behind the `EVENT_JSON:` mark.
pub open spec fn event_log_line(e: NearEvent) -> Seq<char> {
    "EVENT_JSON:"@ + event_json(e)
}

/// Copies borrowed strings into owned ones.
fn to_owned_vec(items: Vec<&str>) -> (r: Vec<String>)
    ensures
        r.deep_view() == items.deep_view(),
{
    let mut r: Vec<String> = Vec::new();
    let n = items.len();
    let mut j: usize = 0;
    while j < n
        invariant
            n == items@.len(),
            j <= n,
            r.deep_view() == items.deep_view().take(j as int),
        decreases n - j,
    {
        let s = items[j].to_owned();
        let ghost prev = r@;
        let ghost prev_dv = r.deep_view();
        r.push(s);
        proof {
            assert(prev_dv.len() == prev.len());
            assert(prev.len() == j);
            assert forall|i: int| 0 <= i < r@.len() implies r.deep_view()[i]
                == items.deep_view().take(j + 1)[i] by {
                if i < j {
                    assert(prev_dv[i] == prev[i].deep_view());
                    assert(r.deep_view()[i] == r@[i].deep_view());
                    assert(r@[i] == prev[i]);
                } else {
                    assert(r.deep_view()[i] == s@);
                    assert(items.deep_view()[i] == items@[i]@);
                }
            }
            assert(r.deep_view() =~= items.deep_view().take(j + 1));
        }
        j = j + 1;
    }
    proof {
        assert(items.deep_view().take(n as int) =~= items.deep_view());
    }
    r
}

/// Copies an optional borrowed string into an owned one.
fn to_owned_opt(m: Option<&str>) -> (r: Option<String>)
    ensures
        r.deep_view() == m.deep_view(),
{
    match m {
        Option::Some(s) => Option::Some(s.to_owned()),
        Option::None => Option::None,
    }
}

impl NftMintData {
    /// Builds a mint record from borrowed strings.
    pub fn new(owner_id: &str, token_ids: Vec<&str>, memo: Option<&str>) -> (r: NftMintData)
        ensures
            r.owner_id@ == owner_id@,
            r.token_ids.deep_view() == token_ids.deep_view(),
            r.memo.deep_view() == memo.deep_view(),
    {
        NftMintData {
            owner_id: owner_id.to_owned(),
            token_ids: to_owned_vec(token_ids),
            memo: to_owned_opt(memo),
        }
    }
}

impl NftTransferData {
    /// Builds a transfer record from borrowed strings.
    pub fn new(
        old_owner_id: &str,
        new_owner_id: &str,
        token_ids: Vec<&str>,
        authorized_id: Option<&str>,
        memo: Option<&str>,
    ) -> (r: NftTransferData)
        ensures
            r.old_owner_id@ == old_owner_id@,
            r.new_owner_id@ == new_owner_id@,
            r.token_ids.deep_view() == token_ids.deep_view(),
            r.authorized_id.deep_view() == authorized_id.deep_view(),
            r.memo.deep_view() == memo.deep_view(),
    {
        NftTransferData {
            authorized_id: to_owned_opt(authorized_id),
            old_owner_id: old_owner_id.to_owned(),
            new_owner_id: new_owner_id.to_owned(),
            token_ids: to_owned_vec(token_ids),
            memo: to_owned_opt(memo),
        }
    }
}

impl NftBurnData {
    /// Builds a burn record from borrowed strings.
    pub fn new(
        owner_id: &str,
        token_ids: Vec<&str>,
        authorized_id: Option<&str>,
        memo: Option<&str>,
    ) -> (r: NftBurnData)
        ensures
            r.owner_id@ == owner_id@,
            r.token_ids.deep_view() == token_ids.deep_view(),
            r.authorized_id.deep_view() == authorized_id.deep_view(),
            r.memo.deep_view() == memo.deep_view(),
    {
        NftBurnData {
            owner_id: owner_id.to_owned(),
            token_ids: to_owned_vec(token_ids),
            authorized_id: to_owned_opt(authorized_id),
            memo: to_owned_opt(memo),
        }
    }
}

/// Appends the JSON object of one mint record.
fn push_mint_json(out: &mut Vec<char>, d: &NftMintData)
    ensures
        final(out)@ == old(out)@ + mint_json(*d),
{
    push_str_chars(out, "{\"owner_id\":");
    push_quoted(out, d.owner_id.as_str());
    push_str_chars(out, ",\"token_ids\":");
    push_str_array(out, &d.token_ids);
    match &d.memo {
        Option::Some(m) => {
            push_str_chars(out, ",\"memo\":");
            push_quoted(out, m.as_str());
        },
        Option::None => {},
    }
    push_str_chars(out, "}");
    proof {
        assert(out@ =~= old(out)@ + mint_json(*d));
    }
}

/// Appends the JSON object of one transfer record.
fn push_transfer_json(out: &mut Vec<char>, d: &NftTransferData)
    ensures
        final(out)@ == old(out)@ + transfer_json(*d),
{
    push_str_chars(out, "{\"old_owner_id\":");
    push_quoted(out, d.old_owner_id.as_str());
    push_str_chars(out, ",\"new_owner_id\":");
    push_quoted(out, d.new_owner_id.as_str());
    push_str_chars(out, ",\"token_ids\":");
    push_str_array(out, &d.token_ids);
    match &d.authorized_id {
        Option::Some(a) => {
            push_str_chars(out, ",\"authorized_id\":");
            push_quoted(out, a.as_str());
        },
        Option::None => {},
    }
    match &d.memo {
        Option::Some(m) => {
            push_str_chars(out, ",\"memo\":");
            push_quoted(out, m.as_str());
        },
        Option::None => {},
    }
    push_str_chars(out, "}");
    proof {
        assert(out@ =~= old(out)@ + transfer_json(*d));
    }
}

/// Appends the JSON object of one burn record.
fn push_burn_json(out: &mut Vec<char>, d: &NftBurnData)
    ensures
        final(out)@ == old(out)@ + burn_json(*d),
{
    push_str_chars(out, "{\"owner_id\":");
    push_quoted(out, d.owner_id.as_str());
    push_str_chars(out, ",\"token_ids\":");
    push_str_array(out, &d.token_ids);
    match &d.authorized_id {
        Option::Some(a) => {
            push_str_chars(out, ",\"authorized_id\":");
            push_quoted(out, a.as_str());
        },
        Option::None => {},
    }
    match &d.memo {
        Option::Some(m) => {
            push_str_chars(out, ",\"memo\":");
            push_quoted(out, m.as_str());
        },
        Option::None => {},
    }
    push_str_chars(out, "}");
    proof {
        assert(out@ =~= old(out)@ + burn_json(*d));
    }
}

/// Relies on writing a line to standard output; the process log is where
/// event lines go.
#[verifier::external_body]
fn log_str(s: &str) {
    let mut out = std::io::stdout();
    let _ = writeln!(out, "{}", s);
}

impl NearEvent {
    /// Wraps an event kind with an explicit version.
    pub fn new_171(version: &str, event_kind: Nep171EventKind) -> (r: NearEvent)
        ensures
            (match r {
                NearEvent::Nep171(ev) => ev.version@ == version@ && ev.event_kind == event_kind,
            }),
    {
        NearEvent::Nep171(Nep171Event { version: version.to_owned(), event_kind })
    }

    /// Wraps an event kind with the current standard version.
    pub fn new_171_v1(event_kind: Nep171EventKind) -> (r: NearEvent)
        ensures
            (match r {
                NearEvent::Nep171(ev) => ev.version@ == "1.0.0"@ && ev.event_kind == event_kind,
            }),
    {
        NearEvent::new_171("1.0.0", event_kind)
    }

    /// An event holding burn records.
    pub fn nft_burn(data: Vec<NftBurnData>) -> (r: NearEvent)
        ensures
            (match r {
                NearEvent::Nep171(ev) => ev.version@ == "1.0.0"@ && ev.event_kind
                    == Nep171EventKind::NftBurn(data),
            }),
    {
        NearEvent::new_171_v1(Nep171EventKind::NftBurn(data))
    }

    /// An event holding transfer records.
    pub fn nft_transfer(data: Vec<NftTransferData>) -> (r: NearEvent)
        ensures
            (match r {
                NearEvent::Nep171(ev) => ev.version@ == "1.0.0"@ && ev.event_kind
                    == Nep171EventKind::NftTransfer(data),
            }),
    {
        NearEvent::new_171_v1(Nep171EventKind::NftTransfer(data))
    }

    /// An event holding mint records.
    pub fn nft_mint(data: Vec<NftMintData>) -> (r: NearEvent)
        ensures
            (match r {
                NearEvent::Nep171(ev) => ev.version@ == "1.0.0"@ && ev.event_kind
                    == Nep171EventKind::NftMint(data),
            }),
    {
        NearEvent::new_171_v1(Nep171EventKind::NftMint(data))
    }

    /// Renders the event as its JSON object.
    pub fn to_json_string(&self) -> (r: String)
        ensures
            r@ == event_json(*self),
    {
        let mut out: Vec<char> = Vec::new();
        match self {
            NearEvent::Nep171(ev) => {
                push_str_chars(&mut out, "{\"standard\":\"nep171\",\"version\":");
                push_quoted(&mut out, ev.version.as_str());
                match &ev.event_kind {
                    Nep171EventKind::NftMint(ds) => {
                        push_str_chars(&mut out, ",\"event\":\"nft_mint\",\"data\":[");
                        let ghost base = out@;
                        let n = ds.len();
                        let mut j: usize = 0;
                        while j < n
                            invariant
                                n == ds@.len(),
                                j <= n,
                                out@ == base + comma_join(mint_list(ds@.take(j as int))),
                            decreases n - j,
                        {
                            if j > 0 {
                                out.push(',');
                            }
                            push_mint_json(&mut out, &ds[j]);
                            proof {
                                let prev = mint_list(ds@.take(j as int));
                                assert(mint_list(ds@.take(j + 1)) =~= prev.push(
                                    mint_json(ds@[j as int]),
                                ));
                                crate::json::lemma_comma_join_snoc(prev, mint_json(ds@[j as int]));
                            }
                            j = j + 1;
                        }
                        push_str_chars(&mut out, "]}");
                        proof {
                            assert(ds@.take(n as int) =~= ds@);
                        }
                    },
                    Nep171EventKind::NftTransfer(ds) => {
                        push_str_chars(&mut out, ",\"event\":\"nft_transfer\",\"data\":[");
                        let ghost base = out@;
                        let n = ds.len();
                        let mut j: usize = 0;
                        while j < n
                            invariant
                                n == ds@.len(),
                                j <= n,
                                out@ == base + comma_join(transfer_list(ds@.take(j as int))),
                            decreases n - j,
                        {
                            if j > 0 {
                                out.push(',');
                            }
                            push_transfer_json(&mut out, &ds[j]);
                            proof {
                                let prev = transfer_list(ds@.take(j as int));
                                assert(transfer_list(ds@.take(j + 1)) =~= prev.push(
                                    transfer_json(ds@[j as int]),
                                ));
                                crate::json::lemma_comma_join_snoc(
                                    prev,
                                    transfer_json(ds@[j as int]),
                                );
                            }
                            j = j + 1;
                        }
                        push_str_chars(&mut out, "]}");
                        proof {
                            assert(ds@.take(n as int) =~= ds@);
                        }
                    },
                    Nep171EventKind::NftBurn(ds) => {
                        push_str_chars(&mut out, ",\"event\":\"nft_burn\",\"data\":[");
                        let ghost base = out@;
                        let n = ds.len();
                        let mut j: usize = 0;
                        while j < n
                            invariant
                                n == ds@.len(),
                                j <= n,
                                out@ == base + comma_join(burn_list(ds@.take(j as int))),
                            decreases n - j,
                        {
                            if j > 0 {
                                out.push(',');
                            }
                            push_burn_json(&mut out, &ds[j]);
                            proof {
                                let prev = burn_list(ds@.take(j as int));
                                assert(burn_list(ds@.take(j + 1)) =~= prev.push(
                                    burn_json(ds@[j as int]),
                                ));
                                crate::json::lemma_comma_join_snoc(prev, burn_json(ds@[j as int]));
                            }
                            j = j + 1;
                        }
                        push_str_chars(&mut out, "]}");
                        proof {
                            assert(ds@.take(n as int) =~= ds@);
                        }
                    },
                }
            },
        }
        proof {
            assert(out@ =~= event_json(*self));
        }
        chars_to_string(&out)
    }

    /// Renders the full log line for the event.
    pub fn to_json_event_string(&self) -> (r: String)
        ensures
            r@ == event_log_line(*self),
    {
        let mut line = "EVENT_JSON:".to_owned();
        let body = self.to_json_string();
        line.append(body.as_str());
        line
    }

    /// Writes the event's log line to the process log.
    pub fn emit(&self) {
        let line = self.to_json_event_string();
        log_str(line.as_str());
    }

    /// Emits one mint event with a single record.
    pub fn emit_nft_mint(owner_id: &str, token_ids: Vec<&str>, memo: Option<&str>) {
        NearEvent::emit_nft_mints(vec![NftMintData::new(owner_id, token_ids, memo)]);
    }

    /// Emits one mint event holding the given records.
    pub fn emit_nft_mints(data: Vec<NftMintData>) {
        NearEvent::nft_mint(data).emit();
    }

    /// Emits one transfer event with a single record.
    pub fn emit_nft_transfer(
        old_owner_id: &str,
        new_owner_id: &str,
        token_ids: Vec<&str>,
        authorized_id: Option<&str>,
        memo: Option<&str>,
    ) {
        NearEvent::emit_nft_transfers(
            vec![
                NftTransferData::new(old_owner_id, new_owner_id, token_ids, authorized_id, memo),
            ],
        );
    }

    /// Emits one transfer event holding the given records.
    pub fn emit_nft_transfers(data: Vec<NftTransferData>) {
        NearEvent::nft_transfer(data).emit()
    }

    /// Emits one burn event with a single record.
    pub fn emit_nft_burn(
        owner_id: &str,
        token_ids: Vec<&str>,
        authorized_id: Option<&str>,
        memo: Option<&str>,
    ) {
        NearEvent::emit_nft_burns(vec![NftBurnData::new(owner_id, token_ids, authorized_id, memo)]);
    }

    /// Emits one burn event holding the given records.
    pub fn emit_nft_burns(data: Vec<NftBurnData>) {
        NearEvent::nft_burn(data).emit()
    }
}

} // verus!
