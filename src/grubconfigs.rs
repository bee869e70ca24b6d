//! The static GRUB configuration: which drop-in fragments it sources and
//! the text it is made of.
use vstd::prelude::*;
use core::cmp::Ordering;
use crate::named::{Named, named_views, lookup, names_sorted, upsert_sorted, lemma_sorted_unique, lemma_lookup_at, lemma_lookup_absent};
use crate::text::{seq_cmp, ends_with, text_ends_with, views_of, concat};

verus! {

/// Where the static configuration files come from.
pub const CONFIGDIR: &'static str = "/usr/lib/bootupd/grub2-static";

/// Subdirectory of `CONFIGDIR` holding the drop-in fragments.
pub const DROPINDIR: &'static str = "configs.d";

/// Names strictly increasing.
pub open spec fn names_in_order(k: Seq<Seq<char>>) -> bool {
    forall|i: int, j: int| 0 <= i < j < k.len() ==> seq_cmp(k[i], k[j]) == Ordering::Less
}

pub open spec fn is_fragment(n: Seq<char>) -> bool {
    ends_with(n, ".cfg"@)
}

/// The drop-in fragments among the directory entries `names`: those ending
/// in `.cfg`, sorted, each once.
pub fn dropin_configs(names: &Vec<String>) -> (r: Vec<String>)
    ensures
        names_in_order(views_of(r@)),
        forall|n: Seq<char>| views_of(r@).contains(n) <==> (views_of(names@).contains(n) && is_fragment(n)),
{
    let ghost nv = views_of(names@);
    let mut m: Vec<Named<()>> = Vec::new();
    let mut i: usize = 0;
    while i < names.len()
        invariant
            nv == views_of(names@),
            i <= nv.len(),
            names_sorted(named_views(m@)),
            forall|n: Seq<char>| #[trigger] lookup(named_views(m@), n) is Some <==> (nv.take(i as int).contains(n) && is_fragment(n)),
        decreases nv.len() - i,
    {
        let n = names[i].as_str();
        assert(n@ == nv[i as int]);
        assert(nv.take(i + 1) =~= nv.take(i as int).push(n@));
        let ghost before = named_views(m@);
        if text_ends_with(n, ".cfg") {
            upsert_sorted(&mut m, Named { name: n.to_owned(), value: () });
        }
        proof {
            assert forall|q: Seq<char>| #[trigger] lookup(named_views(m@), q) is Some <==> (nv.take(i + 1).contains(q) && is_fragment(q)) by {
                vstd::seq_lib::lemma_seq_contains_after_push(nv.take(i as int), n@, q);
            }
        }
        i = i + 1;
    }
    assert(nv.take(i as int) =~= nv);
    let ghost mv = named_views(m@);
    proof {
        lemma_sorted_unique(mv);
    }
    assert(forall|n: Seq<char>| #[trigger] lookup(mv, n) is Some <==> (nv.contains(n) && is_fragment(n)));
    let mut out: Vec<String> = Vec::new();
    let mut q: usize = 0;
    while q < m.len()
        invariant
            mv == named_views(m@),
            nv == views_of(names@),
            names_sorted(mv),
            crate::named::unique_names(mv),
            forall|n: Seq<char>| #[trigger] lookup(mv, n) is Some <==> (nv.contains(n) && is_fragment(n)),
            q <= mv.len(),
            views_of(out@) == mv.take(q as int).map_values(|e: (Seq<char>, ())| e.0),
        decreases mv.len() - q,
    {
        let name = m[q].name.clone();
        assert(name@ == mv[q as int].0);
        let ghost before = views_of(out@);
        out.push(name);
        assert(views_of(out@) =~= before.push(mv[q as int].0));
        assert(mv.take(q + 1).map_values(|e: (Seq<char>, ())| e.0) =~= mv.take(q as int).map_values(|e: (Seq<char>, ())| e.0).push(mv[q as int].0));
        q = q + 1;
    }
    assert(mv.take(q as int) =~= mv);
    let ghost k = views_of(out@);
    assert(k == mv.map_values(|e: (Seq<char>, ())| e.0));
    proof {
        assert forall|a: int, b: int| 0 <= a < b < k.len() implies seq_cmp(k[a], k[b]) == Ordering::Less by {
            assert(k[a] == mv[a].0 && k[b] == mv[b].0);
        }
        assert forall|n: Seq<char>| #[trigger] views_of(out@).contains(n) <==> (views_of(names@).contains(n) && is_fragment(n)) by {
            if k.contains(n) {
                let a = choose|a: int| 0 <= a < k.len() && k[a] == n;
                assert(k[a] == mv[a].0);
                lemma_lookup_at(mv, a);
                assert(lookup(mv, n) is Some);
            }
            if nv.contains(n) && is_fragment(n) && !k.contains(n) {
                assert forall|a: int| 0 <= a < mv.len() implies mv[a].0 != n by {
                    assert(k[a] == mv[a].0);
                }
                lemma_lookup_absent(mv, n);
                assert(lookup(mv, n) is None);
            }
        }
    }
    out
}

/// One `source $prefix/<name>` line per fragment, in order.
pub open spec fn source_lines(ds: Seq<Seq<char>>) -> Seq<char>
    decreases ds.len(),
{
    if ds.len() == 0 {
        Seq::empty()
    } else {
        source_lines(ds.drop_last()) + "source $prefix/"@ + ds.last() + "\n"@
    }
}

/// The static `grub.cfg`: the fixed head, a line sourcing each fragment, and
/// the fixed tail.
pub fn static_grub_config(pre: &str, dropins: &Vec<String>, post: &str) -> (r: String)
    ensures
        r@ == pre@ + source_lines(views_of(dropins@)) + post@,
{
    let ghost dv = views_of(dropins@);
    let mut config = pre.to_owned();
    let mut i: usize = 0;
    assert(dv.take(0) =~= Seq::<Seq<char>>::empty());
    assert(config@ =~= pre@ + source_lines(dv.take(0)));
    while i < dropins.len()
        invariant
            dv == views_of(dropins@),
            i <= dv.len(),
            config@ == pre@ + source_lines(dv.take(i as int)),
        decreases dv.len() - i,
    {
        assert(dv.take(i + 1).drop_last() =~= dv.take(i as int));
        assert(dv.take(i + 1).last() == dropins@[i as int]@);
        config.append("source $prefix/");
        config.append(dropins[i].as_str());
        config.append("\n");
        assert(config@ =~= pre@ + source_lines(dv.take(i + 1)));
        i = i + 1;
    }
    assert(dv.take(i as int) =~= dv);
    config.append(post);
    config
}

/// The `bootuuid.cfg` fragment that tells GRUB the boot filesystem's UUID.
pub fn bootuuid_config(uuid: &str) -> (r: String)
    ensures
        r@ == "set BOOT_UUID=\""@ + uuid@ + "\"\n"@,
{
    let a = concat("set BOOT_UUID=\"", uuid);
    concat(a.as_str(), "\"\n")
}

} // verus!
