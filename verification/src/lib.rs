//! Gateway-side logic of the `bsk` browser-automation CLI: the LAN CIDR
//! allow-list (parsing, matching, the peer gate), the choice of a gateway
//! listen address among the host's interfaces, and the request and human
//! output of `bsk snapshot`.

pub mod addr;
pub mod cidr;
pub mod netdev;
pub mod snapshot;
pub mod text;
