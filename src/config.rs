//! The static policy tables: which identity may use which pool, and the
//! endpoints of each pool.

use vstd::prelude::*;

use crate::{endpoint, endpoint_exists, pool_has, pool_load, LoadBalancer};

verus! {

/// An engine holding the deployment's identities and pools: four
/// identities allowed pools 0 to 3, and pools 0 and 1 with three local
/// endpoints each (ports 2500 to 2505). No connection is recorded yet,
/// and no endpoint has a count.
pub fn load_configuration() -> (r: LoadBalancer)
    ensures
        r.wf(),
        r.clients().len() == 4,
        r.clients()[0].group() == 0,
        r.clients()[1].group() == 1,
        r.clients()[2].group() == 2,
        r.clients()[3].group() == 3,
        r.clients()[0].spec_email() == "first@first.com"@,
        r.clients()[1].spec_email() == "second@second.com"@,
        r.clients()[2].spec_email() == "third@third.com"@,
        r.clients()[3].spec_email() == "fourth@fourth.com"@,
        forall|g: u32| #[trigger] pool_has(r.pools(), g) == (g == 0 || g == 1),
        forall|s: u32| #[trigger] endpoint_exists(r.pools(), 0, s) == (s <= 2),
        forall|s: u32| #[trigger] endpoint_exists(r.pools(), 1, s) == (3 <= s <= 5),
        forall|g: u32, s: u32| #[trigger] pool_load(r.pools(), g, s) == 0,
        forall|g: u32, s: u32| endpoint_exists(r.pools(), g, s) ==> #[trigger] endpoint(r.pools(), g, s).active is None,
        endpoint(r.pools(), 0, 0).address@ == "127.0.0.1:2500"@,
        endpoint(r.pools(), 0, 1).address@ == "127.0.0.1:2501"@,
        endpoint(r.pools(), 0, 2).address@ == "127.0.0.1:2502"@,
        endpoint(r.pools(), 1, 3).address@ == "127.0.0.1:2503"@,
        endpoint(r.pools(), 1, 4).address@ == "127.0.0.1:2504"@,
        endpoint(r.pools(), 1, 5).address@ == "127.0.0.1:2505"@,
        r.pending().len() == 0,
{
    let mut lb = LoadBalancer::new();
    proof {
        reveal_strlit("first@first.com");
        reveal_strlit("second@second.com");
        reveal_strlit("third@third.com");
        reveal_strlit("fourth@fourth.com");
    }
    let ghost e1 = "first@first.com"@;
    let ghost e2 = "second@second.com"@;
    let ghost e3 = "third@third.com"@;
    let ghost e4 = "fourth@fourth.com"@;
    proof {
        assert(e1[0] != e2[0] && e1[0] != e3[0] && e1[1] != e4[1]);
        assert(e2[0] != e3[0] && e2[0] != e4[0] && e3[0] != e4[0]);
    }
    lb.add_client("first@first.com".to_owned(), 0);
    assert(lb.clients()[0].spec_email() == e1);
    lb.add_client("second@second.com".to_owned(), 1);
    assert(lb.clients()[1].spec_email() == e2);
    lb.add_client("third@third.com".to_owned(), 2);
    assert(lb.clients()[2].spec_email() == e3);
    lb.add_client("fourth@fourth.com".to_owned(), 3);
    assert(lb.clients().len() == 4);
    lb.add_server(0, 0, "127.0.0.1:2500".to_owned());
    lb.add_server(0, 1, "127.0.0.1:2501".to_owned());
    lb.add_server(0, 2, "127.0.0.1:2502".to_owned());
    lb.add_server(1, 3, "127.0.0.1:2503".to_owned());
    lb.add_server(1, 4, "127.0.0.1:2504".to_owned());
    lb.add_server(1, 5, "127.0.0.1:2505".to_owned());
    lb
}

} // verus!
