//! What the command line decides.

use std::path::PathBuf;
use vstd::prelude::*;
use vstd::string::StringExecFns;

use crate::mockchain::chain::built;
use crate::mockchain::chain::configured_accounts;
use crate::mockchain::chain::configured_notes;
use crate::mockchain::chain::lemma_built;
use crate::mockchain::session::missing_note;
use crate::mockchain::session::refusal;
use crate::mockchain::session::SessionView;
use crate::mockchain::types::AccountId;
use crate::mockchain::types::AssetVault;
use crate::mockchain::types::FaucetConfig;
use crate::mockchain::types::FungibleAsset;
use crate::mockchain::types::MockChainConfig;
use crate::mockchain::types::NoteId;
use crate::mockchain::types::NoteType;
use crate::mockchain::types::OutputNote;
use crate::mockchain::types::P2IdNoteConfig;
use crate::mockchain::types::SwapNoteConfig;
use crate::mockchain::types::TransactionConfig;
use crate::mockchain::types::WalletConfig;
use crate::number::parse;
use crate::number::parsed;
use crate::path::lossy_text;
use crate::path::path_of;
use crate::mockchain::types::lemma_shown_id;
use crate::number::lemma_lower_case;
use crate::number::lemma_numeral_reads_back;
use crate::number::numeral;
use crate::path::path_text;
use crate::text::chars_of;
use crate::text::is_text;
use crate::text::string_of;
use crate::text::strip_prefix;
use crate::text::trim;
use crate::text::trimmed;

verus! {

/// The digits of an id, without a leading `0x`.
pub open spec fn id_digits(s: Seq<char>) -> Seq<char> {
    if "0x"@.is_prefix_of(s) {
        s.skip("0x"@.len() as int)
    } else {
        s
    }
}

/// Reads an id that is written in hexadecimal, with or without `0x`.
pub fn parse_hex_id(s: &str) -> (r: Result<u64, String>)
    ensures
        match r {
            Ok(v) => parsed(id_digits(s@), 16, u64::MAX as nat) == Some(v as nat),
            Err(e) => parsed(id_digits(s@), 16, u64::MAX as nat) is None && e@ == "invalid hex: "@
                + id_digits(s@),
        },
{
    let chars = chars_of(s);
    let digits = match strip_prefix(chars.as_slice(), "0x") {
        Some(rest) => rest,
        None => chars.as_slice(),
    };
    match parse(digits, 16, u64::MAX) {
        Some(v) => Ok(v),
        None => {
            let mut message = "invalid hex: ".to_owned();
            message.append(string_of(digits).as_str());
            Err(message)
        },
    }
}

/// An ASCII letter in lower case; any other character as it is.
pub open spec fn lower(c: char) -> char {
    if 'A' <= c <= 'Z' {
        (c as int + 32) as char
    } else {
        c
    }
}

/// The text with its ASCII letters in lower case.
pub open spec fn lowered(s: Seq<char>) -> Seq<char> {
    s.map_values(|c: char| lower(c))
}

/// A setting that switches something on: `1`, or `true` in any case.
pub open spec fn is_on(value: Seq<char>) -> bool {
    trimmed(value) == "1"@ || lowered(trimmed(value)) == "true"@
}

fn to_lower(s: &[char]) -> (r: Vec<char>)
    ensures
        r@ == lowered(s@),
{
    let mut out: Vec<char> = Vec::new();
    let mut i: usize = 0;
    while i < s.len()
        invariant
            i <= s.len(),
            out@.len() == i,
            forall|k: int| 0 <= k < i ==> #[trigger] out@[k] == lower(s@[k]),
        decreases s.len() - i,
    {
        let c = s[i];
        if 'A' <= c && c <= 'Z' {
            out.push((c as u8 + 32) as char);
        } else {
            out.push(c);
        }
        i += 1;
    }
    assert(out@ =~= lowered(s@));
    out
}

/// Tells whether recording is switched off by a setting, where there is one.
pub fn recording_disabled(setting: Option<&str>) -> (r: bool)
    ensures
        r == match setting {
            Some(value) => is_on(value@),
            None => false,
        },
{
    match setting {
        None => false,
        Some(value) => {
            let chars = chars_of(value);
            let v = trim(chars.as_slice());
            is_text(v, "1") || is_text(to_lower(v).as_slice(), "true")
        },
    }
}

/// The output directory: the given one, else that of the environment unless it
/// is empty, else the default.
pub fn resolve_out_dir(given: Option<PathBuf>, environment: Option<PathBuf>) -> (r: PathBuf)
    ensures
        match (given, environment) {
            (Some(path), _) => r == path,
            (None, Some(path)) => if path_text(path).len() > 0 {
                r == path
            } else {
                path_text(r) == "./ct-traces/"@
            },
            (None, None) => path_text(r) == "./ct-traces/"@,
        },
{
    if let Some(path) = given {
        return path;
    }
    if let Some(path) = environment {
        if !lossy_text(&path).as_str().is_empty() {
            return path;
        }
    }
    path_of("./ct-traces/")
}

/// The configuration is that of the sample contract: a wallet, a faucet, and a
/// note by which the faucet pays the wallet.
pub open spec fn is_contract_config(
    c: MockChainConfig,
    wallet: AccountId,
    faucet: AccountId,
    symbol: Seq<char>,
) -> bool {
    &&& c.wallets@.len() == 1
    &&& c.wallets@[0].id == wallet
    &&& c.wallets@[0].initial_assets@ == Seq::<FungibleAsset>::empty()
    &&& c.faucets@.len() == 1
    &&& c.faucets@[0].id == faucet
    &&& c.faucets@[0].symbol@ == symbol
    &&& c.faucets@[0].max_supply == 1_000_000
    &&& c.faucets@[0].initial_supply == 0
    &&& c.p2id_notes@.len() == 1
    &&& c.p2id_notes@[0].id == NoteId(1)
    &&& c.p2id_notes@[0].sender == faucet
    &&& c.p2id_notes@[0].receiver == wallet
    &&& c.p2id_notes@[0].assets@ == seq![FungibleAsset { faucet_id: faucet, amount: 100 }]
    &&& c.p2id_notes@[0].note_type == NoteType::Public
    &&& c.p2id_notes@[0].aux == 0
    &&& c.swap_notes@ == Seq::<SwapNoteConfig>::empty()
    &&& c.output_notes@ == Seq::<OutputNote>::empty()
}

/// The configuration of the sample contract.
pub fn contract_config(wallet_id: u64, faucet_id: u64, symbol: &str) -> (r: MockChainConfig)
    ensures
        is_contract_config(r, AccountId(wallet_id), AccountId(faucet_id), symbol@),
{
    let wallet = AccountId(wallet_id);
    let faucet = AccountId(faucet_id);
    let mut config = MockChainConfig::default();
    config.wallets.push(WalletConfig { id: wallet, initial_assets: AssetVault::default() });
    config.faucets.push(
        FaucetConfig {
            id: faucet,
            symbol: symbol.to_owned(),
            max_supply: 1_000_000,
            initial_supply: 0,
        },
    );
    let mut fungible: Vec<FungibleAsset> = Vec::new();
    fungible.push(FungibleAsset { faucet_id: faucet, amount: 100 });
    let assets = AssetVault { fungible };
    assert(assets@ =~= seq![FungibleAsset { faucet_id: faucet, amount: 100 }]);
    config.p2id_notes.push(
        P2IdNoteConfig {
            id: NoteId(1),
            sender: faucet,
            receiver: wallet,
            assets,
            note_type: NoteType::Public,
            aux: 0,
        },
    );
    config
}

/// The transaction is that of the sample contract: the wallet consumes its
/// note.
pub open spec fn is_contract_transaction(tx: TransactionConfig, wallet: AccountId, debug: bool) -> bool {
    &&& tx.account_id == wallet
    &&& tx.input_notes@ == seq![NoteId(1)]
    &&& tx.tx_script is None
    &&& tx.debug_mode == debug
}

/// The transaction of the sample contract.
pub fn contract_transaction(wallet_id: u64, debug: bool) -> (r: TransactionConfig)
    ensures
        is_contract_transaction(r, AccountId(wallet_id), debug),
{
    let mut input_notes: Vec<NoteId> = Vec::new();
    input_notes.push(NoteId(1));
    assert(input_notes@ =~= seq![NoteId(1)]);
    TransactionConfig {
        account_id: AccountId(wallet_id),
        input_notes,
        tx_script: None,
        debug_mode: debug,
    }
}

/// A session on the chain of the sample contract executes its transaction,
/// whatever the ids are.
pub proof fn lemma_contract_runs(
    c: MockChainConfig,
    tx: TransactionConfig,
    s: SessionView,
    wallet: AccountId,
    faucet: AccountId,
    symbol: Seq<char>,
    debug: bool,
)
    requires
        is_contract_config(c, wallet, faucet, symbol),
        is_contract_transaction(tx, wallet, debug),
        s.status is ChainBuilt,
        s.chain == Some(built(c)),
    ensures
        refusal(s, tx) is None,
{
    lemma_built(c);
    assert(configured_accounts(c)[0].id.0 == wallet.0);
    assert(built(c).accounts.contains_key(wallet.0));
    assert(configured_notes(c)[0].id.0 == 1);
    assert(built(c).notes.contains_key(1));
    reveal_with_fuel(missing_note, 2);
}

/// An id that is written in hexadecimal digits, with `0x` before them or
/// without, is read as itself, and so is the shown id of an account.
pub proof fn lemma_id_read(n: u64)
    ensures
        parsed(id_digits("0x"@ + numeral(n as nat, 16)), 16, u64::MAX as nat) == Some(n as nat),
        parsed(id_digits(numeral(n as nat, 16)), 16, u64::MAX as nat) == Some(n as nat),
        parsed(id_digits(AccountId(n).shown()), 16, u64::MAX as nat) == Some(n as nat),
{
    reveal_strlit("0x");
    let d = numeral(n as nat, 16);
    lemma_numeral_reads_back(n as nat, 16, u64::MAX as nat);
    let s = "0x"@ + d;
    assert("0x"@ =~= s.subrange(0, 2));
    assert(s.skip(2) =~= d);
    if "0x"@.is_prefix_of(d) {
        assert(d.subrange(0, 2)[1] == 'x');
        lemma_lower_case(n as nat, 16, 1);
    }
    lemma_shown_id(AccountId(n));
    let shown = AccountId(n).shown();
    assert("0x"@ =~= shown.subrange(0, 2));
}

/// A setting switches something on if it is `1` or the word `true`, each letter
/// in either case, with white space around it or none. Nothing else does.
pub proof fn lemma_setting(value: Seq<char>)
    ensures
        is_on(value) <==> {
            let t = trimmed(value);
            ||| t.len() == 1 && t[0] == '1'
            ||| {
                &&& t.len() == 4
                &&& t[0] == 't' || t[0] == 'T'
                &&& t[1] == 'r' || t[1] == 'R'
                &&& t[2] == 'u' || t[2] == 'U'
                &&& t[3] == 'e' || t[3] == 'E'
            }
        },
{
    reveal_strlit("1");
    reveal_strlit("true");
    let t = trimmed(value);
    let l = lowered(t);
    if t.len() == 1 && t[0] == '1' {
        assert(t =~= "1"@);
    }
    assert(l.len() == t.len());
    if t == "1"@ {
        assert(t.len() == 1 && t[0] == '1');
    }
    if l == "true"@ {
        assert("true"@.len() == 4);
        assert(t.len() == 4);
        assert(l[0] == 't' && l[1] == 'r' && l[2] == 'u' && l[3] == 'e');
        assert(l[0] == lower(t[0]) && l[1] == lower(t[1]) && l[2] == lower(t[2]) && l[3] == lower(
            t[3],
        ));
    }
    if t.len() == 4 && (t[0] == 't' || t[0] == 'T') && (t[1] == 'r' || t[1] == 'R') && (t[2] == 'u'
        || t[2] == 'U') && (t[3] == 'e' || t[3] == 'E') {
        assert(l[0] == 't' && l[1] == 'r' && l[2] == 'u' && l[3] == 'e');
        assert(l =~= "true"@);
    }
}

} // verus!
