//! Evaluation keys: relinearization and Galois keys.

use vstd::prelude::*;

use crate::lattice::rlwe::keyswitch::KeySwitchKey;
use crate::ring::poly::{RingView, Rows};

verus! {

/// The view of a key-switching key: its ring and its rows.
pub type KeySwitchView = (RingView, Seq<Seq<Rows>>);

/// Relinearization key: either the placeholder, which carries no key
/// material and leaves ciphertexts as they are, or a real key-switching key
/// from `s^2` to `s`.
#[derive(Debug)]
pub struct RelinearizationKey {
    key_switch_key: Option<KeySwitchKey>,
}

impl View for RelinearizationKey {
    type V = Option<KeySwitchView>;

    closed spec fn view(&self) -> Option<KeySwitchView> {
        match self.key_switch_key {
            Some(k) => Some(k@),
            None => None,
        }
    }
}

impl Clone for RelinearizationKey {
    fn clone(&self) -> (r: Self)
        ensures
            r@ == self@,
    {
        match &self.key_switch_key {
            Some(k) => RelinearizationKey { key_switch_key: Some(k.clone()) },
            None => RelinearizationKey { key_switch_key: None },
        }
    }
}

impl Default for RelinearizationKey {
    fn default() -> (r: Self)
        ensures
            r@ is None,
    {
        RelinearizationKey { key_switch_key: None }
    }
}

impl RelinearizationKey {
    /// The placeholder key.
    pub fn placeholder() -> (r: Self)
        ensures
            r@ is None,
    {
        RelinearizationKey { key_switch_key: None }
    }

    /// Wraps a real key-switching key (`s^2 -> s`).
    pub fn from_key_switch_key(key_switch_key: KeySwitchKey) -> (r: Self)
        ensures
            r@ == Some(key_switch_key@),
    {
        RelinearizationKey { key_switch_key: Some(key_switch_key) }
    }

    /// Returns the real key-switching key, unless this is the placeholder.
    pub fn key_switch_key(&self) -> (r: Option<&KeySwitchKey>)
        ensures
            match self@ {
                Some(v) => r matches Some(k) && k@ == v,
                None => r is None,
            },
    {
        match &self.key_switch_key {
            Some(k) => Some(k),
            None => None,
        }
    }
}

/// Galois key for one Galois element: either the placeholder or a real
/// key-switching key from `sigma_element(s)` to `s`.
#[derive(Debug)]
pub struct GaloisKey {
    element: usize,
    key_switch_key: Option<KeySwitchKey>,
}

impl View for GaloisKey {
    type V = (usize, Option<KeySwitchView>);

    closed spec fn view(&self) -> (usize, Option<KeySwitchView>) {
        (
            self.element,
            match self.key_switch_key {
                Some(k) => Some(k@),
                None => None,
            },
        )
    }
}

impl Clone for GaloisKey {
    fn clone(&self) -> (r: Self)
        ensures
            r@ == self@,
    {
        match &self.key_switch_key {
            Some(k) => GaloisKey { element: self.element, key_switch_key: Some(k.clone()) },
            None => GaloisKey { element: self.element, key_switch_key: None },
        }
    }
}

impl GaloisKey {
    /// The placeholder Galois key for `element`.
    pub fn new(element: usize) -> (r: Self)
        ensures
            r@ == (element, None::<KeySwitchView>),
    {
        GaloisKey { element, key_switch_key: None }
    }

    /// Wraps a real key-switching key (`sigma_element(s) -> s`).
    pub fn from_key_switch_key(element: usize, key_switch_key: KeySwitchKey) -> (r: Self)
        ensures
            r@ == (element, Some(key_switch_key@)),
    {
        GaloisKey { element, key_switch_key: Some(key_switch_key) }
    }

    /// Returns the Galois element.
    pub fn element(&self) -> (r: usize)
        ensures
            r == self@.0,
    {
        self.element
    }

    /// Returns the real key-switching key, unless this is the placeholder.
    pub fn key_switch_key(&self) -> (r: Option<&KeySwitchKey>)
        ensures
            match self@.1 {
                Some(v) => r matches Some(k) && k@ == v,
                None => r is None,
            },
    {
        match &self.key_switch_key {
            Some(k) => Some(k),
            None => None,
        }
    }
}

/// The views of a sequence of Galois keys.
pub open spec fn galois_view(keys: Seq<GaloisKey>) -> Seq<(usize, Option<KeySwitchView>)> {
    keys.map_values(|k: GaloisKey| k@)
}

/// The evaluation keys of one secret: an optional relinearization key and
/// any number of Galois keys.
#[derive(Debug)]
pub struct EvaluationKey {
    relin: Option<RelinearizationKey>,
    galois: Vec<GaloisKey>,
}

impl View for EvaluationKey {
    type V = (Option<Option<KeySwitchView>>, Seq<(usize, Option<KeySwitchView>)>);

    closed spec fn view(&self) -> (Option<Option<KeySwitchView>>, Seq<(usize, Option<KeySwitchView>)>) {
        (
            match self.relin {
                Some(k) => Some(k@),
                None => None,
            },
            galois_view(self.galois@),
        )
    }
}

/// Copies a slice of Galois keys.
fn clone_galois(keys: &[GaloisKey]) -> (r: Vec<GaloisKey>)
    ensures
        galois_view(r@) == galois_view(keys@),
{
    let mut out: Vec<GaloisKey> = Vec::with_capacity(keys.len());
    let mut i: usize = 0;
    while i < keys.len()
        invariant
            i <= keys@.len(),
            out@.len() == i,
            forall|t: int| 0 <= t < i ==> (#[trigger] out@[t])@ == keys@[t]@,
        decreases keys@.len() - i,
    {
        out.push(keys[i].clone());
        i = i + 1;
    }
    assert(galois_view(out@) =~= galois_view(keys@));
    out
}

impl Clone for EvaluationKey {
    fn clone(&self) -> (r: Self)
        ensures
            r@ == self@,
    {
        let relin = match &self.relin {
            Some(k) => Some(k.clone()),
            None => None,
        };
        EvaluationKey { relin, galois: clone_galois(self.galois.as_slice()) }
    }
}

impl Default for EvaluationKey {
    fn default() -> (r: Self)
        ensures
            r@.0 is None,
            r@.1.len() == 0,
    {
        EvaluationKey { relin: None, galois: Vec::new() }
    }
}

impl EvaluationKey {
    /// Creates an evaluation key container.
    pub fn new(relin: Option<RelinearizationKey>, galois: Vec<GaloisKey>) -> (r: Self)
        ensures
            r@.0 == (match relin {
                Some(k) => Some(k@),
                None => None::<Option<KeySwitchView>>,
            }),
            r@.1 == galois_view(galois@),
    {
        EvaluationKey { relin, galois }
    }

    /// Returns the relinearization key, if any.
    pub fn relinearization_key(&self) -> (r: Option<&RelinearizationKey>)
        ensures
            match self@.0 {
                Some(v) => r matches Some(k) && k@ == v,
                None => r is None,
            },
    {
        match &self.relin {
            Some(k) => Some(k),
            None => None,
        }
    }

    /// Returns the Galois keys.
    pub fn galois_keys(&self) -> (r: &[GaloisKey])
        ensures
            galois_view(r@) == self@.1,
    {
        self.galois.as_slice()
    }
}

} // verus!
