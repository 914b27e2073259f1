//! Records that the chain daemon's command line answers with, and the
//! description of a deployed contract.
use vstd::prelude::*;

verus! {

/// Answer to a submitted transaction.
#[derive(Debug, Clone)]
pub struct TxResponse {
    pub height: String,
    pub txhash: String,
    pub codespace: String,
    pub code: Option<u128>,
    pub data: String,
    pub raw_log: String,
}

/// Decrypted result of a contract call.
#[derive(Debug, Clone)]
pub struct TxCompute {
    pub answers: Vec<TxAnswer>,
    pub output_logs: Vec<TxOutputLog>,
}

/// One answer of a contract call; `msg_type` is the `type` field.
#[derive(Debug, Clone)]
pub struct TxAnswer {
    pub msg_type: String,
    pub input: String,
}

/// One output log of a contract call; `msg_type` is the `type` field.
#[derive(Debug, Clone)]
pub struct TxOutputLog {
    pub msg_type: String,
    pub attributes: Vec<TxAttribute>,
}

/// A key and value of an output log.
#[derive(Debug, Clone)]
pub struct TxAttribute {
    pub key: String,
    pub value: String,
}

/// A transaction looked up by hash.
#[derive(Debug, Clone)]
pub struct TxQuery {
    pub height: String,
    pub txhash: String,
    pub data: String,
    pub raw_log: String,
    pub logs: Vec<TxQueryLogs>,
    pub gas_wanted: String,
    pub gas_used: String,
    pub timestamp: String,
}

/// The log of one message of a transaction.
#[derive(Debug, Clone)]
pub struct TxQueryLogs {
    pub msg_index: i128,
    pub log: String,
    pub events: Vec<TxQueryEvents>,
}

/// An event of a message log.
#[derive(Debug, Clone)]
pub struct TxQueryEvents {
    pub msg_type: String,
    pub attributes: Vec<TxQueryKeyValue>,
}

/// A key and value of an event.
#[derive(Debug, Clone)]
pub struct TxQueryKeyValue {
    pub msg_key: String,
    pub value: String,
}

/// A stored code, as `list-code` reports it.
#[derive(Debug, Clone)]
pub struct ListCodeResponse {
    pub code_id: u128,
    pub creator: String,
    pub code_hash: String,
}

/// A contract instantiated from a code.
#[derive(Debug, Clone)]
pub struct ListContractCode {
    pub code_id: u128,
    pub creator: String,
    pub label: String,
    pub address: String,
}

/// A contract deployed on a network.
#[derive(Debug, Clone, PartialEq, Eq)]
pub struct NetContract {
    pub label: String,
    pub id: String,
    pub address: String,
    pub code_hash: String,
}

impl NetContract {
    pub fn new(label: &str, id: &str, address: &str, code_hash: &str) -> (r: NetContract)
        ensures
            r.label@ == label@,
            r.id@ == id@,
            r.address@ == address@,
            r.code_hash@ == code_hash@,
    {
        NetContract {
            label: label.to_owned(),
            id: id.to_owned(),
            address: address.to_owned(),
            code_hash: code_hash.to_owned(),
        }
    }
}

/// Gas spent by a transaction.
#[derive(Debug, Clone)]
pub struct GasLog {
    pub txhash: String,
    pub gas_wanted: String,
    pub gas_used: String,
    pub timestamp: String,
}

/// Something that can name the contract it talks to: its address and code hash.
pub trait Contractable {
    fn get_contract(&self) -> (String, String);
}

impl Contractable for NetContract {
    fn get_contract(&self) -> (String, String) {
        (self.address.clone(), self.code_hash.clone())
    }
}

/// A signed document.
#[derive(Debug, Clone)]
pub struct SignedTx {
    pub pub_key: PubKey,
    pub signature: String,
}

/// A public key; `msg_type` is the `type` field.
#[derive(Debug, Clone)]
pub struct PubKey {
    pub msg_type: String,
    pub value: String,
}

/// A code stored on the network: its id and hash.
#[derive(Debug, Clone)]
pub struct StoredContract {
    pub id: String,
    pub code_hash: String,
}

/// The gas that one message cost.
#[derive(Debug, Clone)]
pub struct Report {
    pub msg_type: String,
    pub message: String,
    pub gas_used: String,
}

/// The address and code hash through which a contract is called.
#[derive(Debug, Clone, PartialEq, Eq)]
pub struct ContractInfo {
    pub address: String,
    pub code_hash: String,
}

/// A contract type that knows how it is deployed: the default sender, the
/// keyring backend and the code file, and where it was deployed.
pub trait Deployable {
    const DEFAULT_USER: &'static str;
    const BACKEND: &'static str;
    const DEPLOYABLE_FILE: &'static str;

    fn default_user(&self) -> &str {
        Self::DEFAULT_USER
    }

    fn backend(&self) -> &str {
        Self::BACKEND
    }

    fn file(&self) -> &str {
        Self::DEPLOYABLE_FILE
    }

    fn get_info(&self) -> &NetContract;

    fn as_contract(&self) -> ContractInfo {
        let net = self.get_info();
        ContractInfo { address: net.address.clone(), code_hash: net.code_hash.clone() }
    }

    fn set_info(&mut self, info: &NetContract);
}

/// Copies each string slice into an owned string.
pub fn vec_str_to_vec_string(str_in: Vec<&str>) -> (r: Vec<String>)
    ensures
        r@.len() == str_in@.len(),
        forall|i: int| 0 <= i < r@.len() ==> #[trigger] r@[i]@ == str_in@[i]@,
{
    let mut str_out: Vec<String> = Vec::new();
    let mut i: usize = 0;
    while i < str_in.len()
        invariant
            i <= str_in@.len(),
            str_out@.len() == i,
            forall|k: int| 0 <= k < i ==> #[trigger] str_out@[k]@ == str_in@[k]@,
        decreases str_in@.len() - i,
    {
        str_out.push(str_in[i].to_owned());
        i += 1;
    }
    str_out
}

} // verus!
