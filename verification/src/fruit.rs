//! Fruit utilities: the esoteric fruits with their ordinals and names, and a
//! salad maker that returns its ingredients in a random order.

use vstd::prelude::*;

verus! {

/// The esoteric fruits, in ordinal order.
#[derive(Clone, Copy, Debug, PartialEq, Eq, Structural)]
pub enum EsotericFruits {
    Pomegranate,
    Guava,
    Pawpaw,
    Durian,
    Mangosteen,
    Cupuacu,
}

impl EsotericFruits {
    /// The fruit with ordinal `n`, if there is one: the six fruits carry the
    /// ordinals 0 through 5 in declaration order.
    pub fn from_ordinal(n: usize) -> (res: Option<Self>)
        ensures
            n <= 5 <==> res is Some,
            n == 0 ==> res == Some(EsotericFruits::Pomegranate),
            n == 1 ==> res == Some(EsotericFruits::Guava),
            n == 2 ==> res == Some(EsotericFruits::Pawpaw),
            n == 3 ==> res == Some(EsotericFruits::Durian),
            n == 4 ==> res == Some(EsotericFruits::Mangosteen),
            n == 5 ==> res == Some(EsotericFruits::Cupuacu),
    {
        match n {
            0 => Some(Self::Pomegranate),
            1 => Some(Self::Guava),
            2 => Some(Self::Pawpaw),
            3 => Some(Self::Durian),
            4 => Some(Self::Mangosteen),
            5 => Some(Self::Cupuacu),
            _ => None,
        }
    }

    /// The fruit's display name.
    pub fn as_str(&self) -> (name: &'static str)
        ensures
            self is Pomegranate ==> name@ == "Pomegranate"@,
            self is Guava ==> name@ == "Guava"@,
            self is Pawpaw ==> name@ == "Pawpaw"@,
            self is Durian ==> name@ == "Durian"@,
            self is Mangosteen ==> name@ == "Mangosteen"@,
            self is Cupuacu ==> name@ == "Cupuacu"@,
    {
        match self {
            Self::Pomegranate => "Pomegranate",
            Self::Guava => "Guava",
            Self::Pawpaw => "Pawpaw",
            Self::Durian => "Durian",
            Self::Mangosteen => "Mangosteen",
            Self::Cupuacu => "Cupuacu",
        }
    }
}

/// Relies on rand's SliceRandom::shuffle (a Fisher-Yates swap walk): it
/// permutes the slice in place, so exactly the given strings come back,
/// merely reordered.
#[verifier::external_body]
fn shuffle_strings(fruits: &mut Vec<String>)
    ensures
        final(fruits)@.to_multiset() == old(fruits)@.to_multiset(),
{
    let mut rng = rand::rng();
    rand::seq::SliceRandom::shuffle(fruits.as_mut_slice(), &mut rng);
}

/// Returns the given fruits in a random order: some permutation of the
/// input, nothing added and nothing lost.
pub fn create_fruit_salad(fruits: Vec<String>) -> (salad: Vec<String>)
    ensures
        salad@.to_multiset() == fruits@.to_multiset(),
{
    let mut salad = fruits;
    shuffle_strings(&mut salad);
    salad
}

} // verus!
