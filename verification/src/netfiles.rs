//! Networks that are configured by a file each.

use vstd::prelude::*;

use crate::config::{NetworkConfig, NetworkView};
use crate::net::IpAddr;
use crate::operator::config_views;
use crate::text::{
    debug_text, lemma_text_total, lemma_text_transitive, quoted, said, say,
    str_before, str_eq, text_before, texts,
};
use crate::validate::{network_problem, resolved_view, validate_network};

verus! {

/// A file of the networks' directory, read and parsed.
#[derive(Debug)]
pub struct NetworkFile {
    pub path: String,
    /// The file's name without its extension.
    pub stem: String,
    pub cfg: NetworkConfig,
}

/// What is wrong with a file, if anything is.
pub open spec fn file_problem(
    f: NetworkFile,
    max_lanes: u8,
    resolved: Seq<(Seq<char>, Seq<IpAddr>)>,
) -> Option<Seq<char>> {
    if f.stem@ != f.cfg@.network_id {
        Some(
            said(
                seq![
                    f.path@,
                    ": file stem "@,
                    debug_text(f.stem@),
                    " must equal network_id "@,
                    debug_text(f.cfg@.network_id),
                ],
            ),
        )
    } else {
        match network_problem(f.cfg@, max_lanes, resolved) {
            Some(p) => Some(said(seq!["validating "@, f.path@, ": "@, p])),
            None => None,
        }
    }
}

/// What is wrong with the first file that is not in order.
pub open spec fn first_file_problem(
    s: Seq<NetworkFile>,
    max_lanes: u8,
    resolved: Seq<(Seq<char>, Seq<IpAddr>)>,
) -> Option<Seq<char>>
    decreases s.len(),
{
    if s.len() == 0 {
        None
    } else {
        match first_file_problem(s.drop_last(), max_lanes, resolved) {
            Some(p) => Some(p),
            None => file_problem(s.last(), max_lanes, resolved),
        }
    }
}

/// `x` behind every network that its name does not sort before.
pub open spec fn placed(s: Seq<NetworkView>, x: NetworkView) -> Seq<NetworkView>
    decreases s.len(),
{
    if s.len() == 0 || !text_before(x.network_id, s.last().network_id) {
        s.push(x)
    } else {
        placed(s.drop_last(), x).push(s.last())
    }
}

/// Networks in the order of their names.
pub open spec fn by_name(s: Seq<NetworkView>) -> Seq<NetworkView>
    decreases s.len(),
{
    if s.len() == 0 {
        s
    } else {
        placed(by_name(s.drop_last()), s.last())
    }
}

/// The configurations that files hold.
pub open spec fn file_views(s: Seq<NetworkFile>) -> Seq<NetworkView> {
    s.map_values(|f: NetworkFile| f.cfg@)
}

/// No network sorts before one that stands in front of it.
pub open spec fn names_in_order(s: Seq<NetworkView>) -> bool {
    forall|i: int, j: int|
        0 <= i < j < s.len() ==> !text_before(
            (#[trigger] s[j]).network_id,
            (#[trigger] s[i]).network_id,
        )
}

fn check_file(f: &NetworkFile, max_lanes: u8, resolved: &Vec<(String, Vec<IpAddr>)>) -> (r: Option<
    String,
>)
    requires
        f.cfg.wf(),
        f.cfg@.everyone().len() <= usize::MAX,
    ensures
        match r {
            Some(e) => file_problem(*f, max_lanes, resolved_view(resolved@)) == Some(e@),
            None => file_problem(*f, max_lanes, resolved_view(resolved@)) is None,
        },
{
    if !str_eq(f.stem.as_str(), f.cfg.network_id.as_str()) {
        let stem = quoted(f.stem.as_str());
        let id = quoted(f.cfg.network_id.as_str());
        let parts = vec![
            f.path.as_str(),
            ": file stem ",
            stem.as_str(),
            " must equal network_id ",
            id.as_str(),
        ];
        assert(texts(parts@) =~= seq![
            f.path@,
            ": file stem "@,
            debug_text(f.stem@),
            " must equal network_id "@,
            debug_text(f.cfg@.network_id),
        ]);
        return Some(say(&parts));
    }
    match validate_network(&f.cfg, max_lanes, resolved) {
        Ok(_) => None,
        Err(p) => {
            let parts = vec!["validating ", f.path.as_str(), ": ", p.as_str()];
            assert(texts(parts@) =~= seq!["validating "@, f.path@, ": "@, p@]);
            Some(say(&parts))
        },
    }
}

fn place(v: &mut Vec<NetworkConfig>, x: NetworkConfig)
    ensures
        config_views(final(v)@) == placed(config_views(old(v)@), x@),
        forall|k: int|
            0 <= k < final(v)@.len() ==> (#[trigger] final(v)@[k]) == x || old(v)@.contains(
                final(v)@[k],
            ),
{
    let ghost s = config_views(v@);
    let mut i: usize = v.len();
    assert(s.take(i as int) =~= s);
    assert(placed(s, x@) =~= placed(s.take(i as int), x@) + s.skip(i as int));
    while i > 0 && str_before(x.network_id.as_str(), v[i - 1].network_id.as_str())
        invariant
            i <= v@.len(),
            s == config_views(v@),
            v@ == old(v)@,
            placed(s, x@) == placed(s.take(i as int), x@) + s.skip(i as int),
        decreases i,
    {
        proof {
            let t = s.take(i as int);
            assert(t.last() == s[i - 1]);
            assert(t.drop_last() =~= s.take(i - 1));
            assert(placed(t, x@) + s.skip(i as int) =~= placed(s.take(i - 1), x@) + s.skip(i - 1));
        }
        i = i - 1;
    }
    proof {
        let t = s.take(i as int);
        if i > 0 {
            assert(t.last() == s[i - 1]);
        }
        assert(placed(t, x@) == t.push(x@));
        assert(config_views(v@.insert(i as int, x)) =~= t.push(x@) + s.skip(i as int));
    }
    v.insert(i, x);
}

/// Check every file, and hand the networks out in the order of their names.
///
/// A file has to be named after its network.
pub fn load_networks(
    files: Vec<NetworkFile>,
    max_lanes: u8,
    resolved: &Vec<(String, Vec<IpAddr>)>,
) -> (r: Result<Vec<NetworkConfig>, String>)
    requires
        forall|i: int|
            0 <= i < files@.len() ==> (#[trigger] files@[i]).cfg.wf()
                && files@[i].cfg@.everyone().len() <= usize::MAX,
    ensures
        match (first_file_problem(files@, max_lanes, resolved_view(resolved@)), r) {
            (Some(p), Err(e)) => e@ == p,
            (None, Ok(cfgs)) => {
                &&& config_views(cfgs@) == by_name(file_views(files@))
                &&& forall|i: int| 0 <= i < cfgs@.len() ==> (#[trigger] cfgs@[i]).wf()
            },
            _ => false,
        },
{
    let ghost hosts = resolved_view(resolved@);
    let mut out: Vec<NetworkConfig> = Vec::new();
    let mut i: usize = 0;
    assert(files@.take(0) =~= Seq::empty());
    assert(config_views(out@) =~= by_name(file_views(files@.take(0))));
    while i < files.len()
        invariant
            i <= files@.len(),
            hosts == resolved_view(resolved@),
            forall|k: int|
                0 <= k < files@.len() ==> (#[trigger] files@[k]).cfg.wf()
                    && files@[k].cfg@.everyone().len() <= usize::MAX,
            first_file_problem(files@.take(i as int), max_lanes, hosts) is None,
            config_views(out@) == by_name(file_views(files@.take(i as int))),
            forall|k: int| 0 <= k < out@.len() ==> (#[trigger] out@[k]).wf(),
        decreases files@.len() - i,
    {
        let ghost t = files@.take(i + 1);
        proof {
            assert(t.drop_last() =~= files@.take(i as int));
            assert(t.last() == files@[i as int]);
            assert(file_views(t).drop_last() =~= file_views(files@.take(i as int)));
            assert(file_views(t).last() == files@[i as int].cfg@);
        }
        if let Some(e) = check_file(&files[i], max_lanes, resolved) {
            proof {
                lemma_a_problem_stays(files@, i + 1, max_lanes, hosts);
            }
            return Err(e);
        }
        place(&mut out, files[i].cfg.copy());
        i = i + 1;
    }
    assert(files@.take(i as int) =~= files@);
    Ok(out)
}

proof fn lemma_a_problem_stays(
    s: Seq<NetworkFile>,
    n: int,
    max_lanes: u8,
    resolved: Seq<(Seq<char>, Seq<IpAddr>)>,
)
    requires
        0 <= n <= s.len(),
        first_file_problem(s.take(n), max_lanes, resolved) is Some,
    ensures
        first_file_problem(s, max_lanes, resolved) == first_file_problem(
            s.take(n),
            max_lanes,
            resolved,
        ),
    decreases s.len(),
{
    if n == s.len() {
        assert(s.take(n) =~= s);
    } else {
        assert(s.drop_last().take(n) =~= s.take(n));
        lemma_a_problem_stays(s.drop_last(), n, max_lanes, resolved);
    }
}

proof fn lemma_placed(s: Seq<NetworkView>, x: NetworkView)
    requires
        names_in_order(s),
    ensures
        names_in_order(placed(s, x)),
        placed(s, x).to_multiset() =~= s.to_multiset().insert(x),
        placed(s, x).len() == s.len() + 1,
        forall|i: int|
            0 <= i < placed(s, x).len() ==> (#[trigger] placed(s, x)[i]) == x || s.contains(
                placed(s, x)[i],
            ),
    decreases s.len(),
{
    broadcast use vstd::seq_lib::group_to_multiset_ensures;

    let p = placed(s, x);
    if s.len() == 0 || !text_before(x.network_id, s.last().network_id) {
        assert forall|i: int, j: int| 0 <= i < j < p.len() implies !text_before(
            (#[trigger] p[j]).network_id,
            (#[trigger] p[i]).network_id,
        ) by {
            if j == s.len() {
                let last = s.last().network_id;
                lemma_text_total(x.network_id, last);
                if text_before(x.network_id, s[i].network_id) {
                    if i == s.len() - 1 {
                        assert(false);
                    } else {
                        lemma_text_total(s[i].network_id, last);
                        if text_before(s[i].network_id, last) {
                            lemma_text_transitive(x.network_id, s[i].network_id, last);
                        }
                    }
                }
            }
        }
        assert forall|i: int| 0 <= i < p.len() implies (#[trigger] p[i]) == x || s.contains(
            p[i],
        ) by {
            if i < s.len() {
                assert(p[i] == s[i]);
            }
        }
    } else {
        let front = s.drop_last();
        lemma_placed(front, x);
        let q = placed(front, x);
        assert(s =~= front.push(s.last()));
        assert forall|i: int, j: int| 0 <= i < j < p.len() implies !text_before(
            (#[trigger] p[j]).network_id,
            (#[trigger] p[i]).network_id,
        ) by {
            if j == q.len() {
                if q[i] == x {
                    lemma_text_total(x.network_id, s.last().network_id);
                } else {
                    let k = choose|k: int| 0 <= k < front.len() && front[k] == q[i];
                    assert(s[k] == q[i]);
                }
            } else {
                assert(p[i] == q[i] && p[j] == q[j]);
            }
        }
        assert forall|i: int| 0 <= i < p.len() implies (#[trigger] p[i]) == x || s.contains(
            p[i],
        ) by {
            if i < q.len() {
                assert(p[i] == q[i]);
                if q[i] != x {
                    let k = choose|k: int| 0 <= k < front.len() && front[k] == q[i];
                    assert(s[k] == q[i]);
                }
            } else {
                assert(s[s.len() - 1] == p[i]);
            }
        }
    }
}

/// The networks come in the order of their names, and none is lost or added.
pub proof fn law_networks_come_in_the_order_of_their_names(s: Seq<NetworkView>)
    ensures
        names_in_order(by_name(s)),
        by_name(s).to_multiset() =~= s.to_multiset(),
    decreases s.len(),
{
    broadcast use vstd::seq_lib::group_to_multiset_ensures;

    if s.len() > 0 {
        law_networks_come_in_the_order_of_their_names(s.drop_last());
        lemma_placed(by_name(s.drop_last()), s.last());
        assert(s =~= s.drop_last().push(s.last()));
    }
}

/// The files are taken where each is named after the network in it and holds a
/// valid one, and refused where one is not or does not.
pub proof fn law_a_file_is_named_after_its_network(
    s: Seq<NetworkFile>,
    max_lanes: u8,
    resolved: Seq<(Seq<char>, Seq<IpAddr>)>,
)
    ensures
        first_file_problem(s, max_lanes, resolved) is None <==> forall|i: int|
            0 <= i < s.len() ==> (#[trigger] s[i]).stem@ == s[i].cfg@.network_id && network_problem(
                s[i].cfg@,
                max_lanes,
                resolved,
            ) is None,
    decreases s.len(),
{
    if s.len() > 0 {
        let d = s.drop_last();
        law_a_file_is_named_after_its_network(d, max_lanes, resolved);
        assert(forall|i: int| 0 <= i < d.len() ==> #[trigger] d[i] == s[i]);
        assert(s[s.len() - 1] == s.last());
        if first_file_problem(s, max_lanes, resolved) is None {
            assert forall|i: int| 0 <= i < s.len() implies (#[trigger] s[i]).stem@
                == s[i].cfg@.network_id && network_problem(s[i].cfg@, max_lanes, resolved) is None by {
                if i < d.len() {
                    assert(d[i] == s[i]);
                }
            }
        } else if first_file_problem(d, max_lanes, resolved) is Some {
            let i = choose|i: int|
                0 <= i < d.len() && !((#[trigger] d[i]).stem@ == d[i].cfg@.network_id
                    && network_problem(d[i].cfg@, max_lanes, resolved) is None);
            assert(s[i] == d[i]);
        }
    }
}

} // verus!
