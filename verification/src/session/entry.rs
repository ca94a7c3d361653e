use vstd::prelude::*;
use crate::deck::CardId;
use crate::schedule::Review;

verus! {

/// A card to learn in a session: where its deck is, which card it is, and its
/// scheduling data.
#[derive(Debug)]
pub struct Entry<C, D> {
    location: Vec<C>,
    id: CardId,
    data: D,
}

/// A card id as plain text: the rem id, and the group's rem id and name.
pub open spec fn card_id_view(id: CardId) -> (Seq<char>, (Seq<char>, Seq<char>)) {
    (id.0@, (id.1.0@, id.1.1@))
}

impl<C, D> Entry<C, D> {
    pub closed spec fn spec_location(self) -> Seq<C> {
        self.location@
    }

    pub closed spec fn spec_id(self) -> (Seq<char>, (Seq<char>, Seq<char>)) {
        card_id_view(self.id)
    }

    pub closed spec fn spec_data(self) -> D {
        self.data
    }
}

impl<C, D: Review> Entry<C, D> {
    pub fn new(location: Vec<C>, id: CardId, data: D) -> (e: Self)
        ensures
            e.spec_location() == location@,
            e.spec_id() == card_id_view(id),
            e.spec_data() == data,
    {
        Entry { location, id, data }
    }

    pub fn location(&self) -> (l: &Vec<C>)
        ensures
            l@ == self.spec_location(),
    {
        &self.location
    }

    pub fn id(&self) -> (id: CardId)
        ensures
            card_id_view(id) == self.spec_id(),
    {
        (self.id.0.clone(), (self.id.1.0.clone(), self.id.1.1.clone()))
    }

    pub fn data_mut(&mut self) -> (d: &mut D)
        ensures
            *d == old(self).spec_data(),
            final(self).spec_location() == old(self).spec_location(),
            final(self).spec_id() == old(self).spec_id(),
            final(self).spec_data() == *final(d),
    {
        &mut self.data
    }

    /// When the card is due.
    pub fn due(&self) -> (d: u32)
        ensures
            d == self.spec_data().spec_due(),
    {
        self.data.due()
    }
}

} // verus!
