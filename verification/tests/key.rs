use panoradix::key::ExtensibleKey;
use panoradix::RadixSet;

#[derive(Clone)]
struct Wrapper(Vec<()>);

impl ExtensibleKey for Wrapper {
    type Component = ();

    fn as_slice<'a>(&'a self) -> &'a [()] {
        &self.0
    }

    fn from_vec(v: Vec<Self::Component>) -> Self::Owned {
        Wrapper(v)
    }
}

#[test]
fn it_can_be_extended() {
    let mut s = RadixSet::<Wrapper>::new();
    s.insert(&Wrapper(vec![()]));
}
