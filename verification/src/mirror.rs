//! Choosing where to fetch a GitHub URL from: the public mirrors are probed in
//! order, and the first that answers is used; a URL elsewhere is used as given.
//! The probing itself is network work done by the caller, which reports each
//! outcome back.

use vstd::prelude::*;
use crate::text::{chars_of, push_str};

verus! {

/// The prefix of the URLs that are fetched through a mirror.
pub open spec fn github_prefix() -> Seq<char> {
    "https://github.com"@
}

/// How many mirrors there are.
pub const MIRROR_COUNT: usize = 2;

/// The mirror of rank `k` (in probing order).
pub open spec fn mirror_prefix(k: int) -> Seq<char> {
    if k == 0 {
        "https://gh-proxy.com/"@
    } else {
        "https://ghfast.top/"@
    }
}

/// Whether `url` starts with `https://github.com`.
pub open spec fn is_github_url(url: Seq<char>) -> bool {
    github_prefix().len() <= url.len() && url.take(github_prefix().len() as int)
        == github_prefix()
}

/// What the caller is to do next.
pub enum MirrorStep {
    /// Send a `HEAD` request to this URL and report whether it was answered.
    Probe(String),
    /// Fetch from this URL; resolution is over.
    Resolved(String),
}

/// `step` asks to probe `url`.
pub open spec fn is_probe(step: MirrorStep, url: Seq<char>) -> bool {
    step matches MirrorStep::Probe(u) && u@ == url
}

/// `step` resolves to `url`.
pub open spec fn is_resolved(step: MirrorStep, url: Seq<char>) -> bool {
    step matches MirrorStep::Resolved(u) && u@ == url
}

/// The state of resolving one URL.
pub struct MirrorResolver {
    original: String,
    next: usize,
}

impl MirrorResolver {
    /// The URL being resolved.
    pub closed spec fn original(&self) -> Seq<char> {
        self.original@
    }

    /// The rank of the mirror whose probe is awaited (`MIRROR_COUNT` once
    /// resolution is over).
    pub closed spec fn pending(&self) -> int {
        self.next as int
    }

    /// The mirror URL of rank `k` for `self.original`.
    fn candidate(&self, k: usize) -> (url: String)
        requires
            k < MIRROR_COUNT,
        ensures
            url@ == mirror_prefix(k as int) + self.original(),
    {
        let mut url = String::new();
        if k == 0 {
            push_str(&mut url, "https://gh-proxy.com/");
        } else {
            push_str(&mut url, "https://ghfast.top/");
        }
        push_str(&mut url, self.original.as_str());
        url
    }

    /// Starts resolving `original`: a GitHub URL asks for a probe of the first
    /// mirror; any other URL is resolved to itself at once.
    pub fn start(original: &str) -> (r: (MirrorResolver, MirrorStep))
        ensures
            r.0.original() == original@,
            is_github_url(original@) ==> r.0.pending() == 0 && is_probe(
                r.1,
                mirror_prefix(0) + original@,
            ),
            !is_github_url(original@) ==> r.0.pending() == MIRROR_COUNT && is_resolved(
                r.1,
                original@,
            ),
    {
        let mut own = String::new();
        push_str(&mut own, original);
        let v = chars_of(original);
        let prefix = chars_of("https://github.com");
        let mut matches = prefix.len() <= v.len();
        let mut i: usize = 0;
        while matches && i < prefix.len()
            invariant
                prefix@ == github_prefix(),
                v@ == original@,
                i <= prefix.len(),
                matches ==> prefix.len() <= v.len() && v@.take(i as int) == prefix@.take(
                    i as int,
                ),
                !matches ==> !is_github_url(original@),
            decreases prefix.len() - i,
        {
            if v[i] != prefix[i] {
                assert(v@.take(prefix.len() as int)[i as int] != prefix@[i as int]);
                matches = false;
                i = prefix.len();
            } else {
                assert(v@.take(i + 1) =~= prefix@.take(i + 1));
                i = i + 1;
            }
        }
        if matches {
            assert(prefix@.take(prefix.len() as int) =~= prefix@);
            let resolver = MirrorResolver { original: own, next: 0 };
            let url = resolver.candidate(0);
            (resolver, MirrorStep::Probe(url))
        } else {
            let mut same = String::new();
            push_str(&mut same, original);
            (MirrorResolver { original: own, next: MIRROR_COUNT }, MirrorStep::Resolved(same))
        }
    }

    /// Takes the outcome of the awaited probe: an answered probe resolves to
    /// that mirror; an unanswered one moves on to the next mirror, or, after the
    /// last, resolves to the original URL. With no probe awaited, resolution
    /// stays at the original URL.
    pub fn on_probe(&mut self, answered: bool) -> (step: MirrorStep)
        ensures
            final(self).original() == old(self).original(),
            old(self).pending() < MIRROR_COUNT && answered ==> final(self).pending()
                == MIRROR_COUNT && is_resolved(
                step,
                mirror_prefix(old(self).pending()) + old(self).original(),
            ),
            old(self).pending() + 1 < MIRROR_COUNT && !answered ==> final(self).pending()
                == old(self).pending() + 1 && is_probe(
                step,
                mirror_prefix(old(self).pending() + 1) + old(self).original(),
            ),
            old(self).pending() + 1 >= MIRROR_COUNT && !answered ==> final(self).pending()
                == MIRROR_COUNT && is_resolved(step, old(self).original()),
            old(self).pending() >= MIRROR_COUNT ==> final(self).pending() == MIRROR_COUNT
                && is_resolved(step, old(self).original()),
    {
        if self.next < MIRROR_COUNT && answered {
            let url = self.candidate(self.next);
            self.next = MIRROR_COUNT;
            MirrorStep::Resolved(url)
        } else if self.next < MIRROR_COUNT - 1 && !answered {
            self.next = self.next + 1;
            let url = self.candidate(self.next);
            MirrorStep::Probe(url)
        } else {
            self.next = MIRROR_COUNT;
            let mut url = String::new();
            push_str(&mut url, self.original.as_str());
            MirrorStep::Resolved(url)
        }
    }
}

} // verus!
