use secret_storage_plus::cli_types::{vec_str_to_vec_string, ContractInfo};
use secret_storage_plus::keepers::{DistributionKeeper, StakingKeeper};
use secret_storage_plus::{Contractable, Deployable, NetContract};

pub struct DeployableContract {
    pub info: NetContract,
}

impl Deployable for DeployableContract {
    const DEFAULT_USER: &'static str = "user";
    const BACKEND: &'static str = "testnet";
    const DEPLOYABLE_FILE: &'static str = "test.wasm";

    fn get_info(&self) -> &NetContract {
        &self.info
    }

    fn set_info(&mut self, info: &NetContract) {
        self.info = info.clone()
    }
}

#[test]
fn test_macro() {
    assert_eq!("user", DeployableContract::DEFAULT_USER);
    assert_eq!("test.wasm", DeployableContract::DEPLOYABLE_FILE);
    assert_eq!("testnet", DeployableContract::BACKEND);

    let test_contract = NetContract::new("test", "test", "test", "test");
    let test = DeployableContract { info: test_contract.clone() };
    assert_eq!(test.get_info(), &test_contract);
}

#[test]
fn deployable_defaults_and_set_info() {
    let mut d = DeployableContract { info: NetContract::new("a", "1", "addr", "hash") };
    assert_eq!(d.default_user(), "user");
    assert_eq!(d.backend(), "testnet");
    assert_eq!(d.file(), "test.wasm");
    assert_eq!(
        d.as_contract(),
        ContractInfo { address: "addr".to_string(), code_hash: "hash".to_string() }
    );
    d.set_info(&NetContract::new("b", "2", "addr2", "hash2"));
    assert_eq!(d.get_info().label, "b");
    assert_eq!(d.as_contract().address, "addr2");
}

#[test]
fn net_contract_fields_and_contract_pair() {
    let c = NetContract::new("label", "7", "secret1xyz", "abcd");
    assert_eq!(c.label, "label");
    assert_eq!(c.id, "7");
    assert_eq!(c.address, "secret1xyz");
    assert_eq!(c.code_hash, "abcd");
    assert_eq!(c.get_contract(), ("secret1xyz".to_string(), "abcd".to_string()));
}

#[test]
fn strings_are_copied_in_order() {
    let out = vec_str_to_vec_string(vec!["--output", "json"]);
    assert_eq!(out, vec!["--output".to_string(), "json".to_string()]);
    assert!(vec_str_to_vec_string(vec![]).is_empty());
}

#[test]
fn keepers_construct() {
    let _s = StakingKeeper::new();
    let _d = DistributionKeeper::new();
}
