use cat_theory::categories::{check_eq_morphisms, compose, Morphism, Object};

#[derive(Clone, Debug, PartialEq, Eq, Hash)]
struct Point(u32);

impl Object for Point {
    // `==` on this type is the derived one: an equivalence that clones respect.
    fn equality_laws() {}
}

#[derive(Clone, Debug, PartialEq, Eq, Hash)]
struct Label(String);

impl Object for Label {
    // `==` on this type is the derived one: an equivalence that clones respect.
    fn equality_laws() {}
}

/// Sends `from` to `to`, and any other point by the same offset.
struct Shift {
    from: Point,
    to: Point,
}

impl Morphism<Point, Point> for Shift {
    // `source`, `target` and `image` are the model of the morphism: what
    // `domain`, `codomain` and `map` return.
    fn source(&self) -> Point {
        self.domain().clone()
    }

    fn target(&self) -> Point {
        self.codomain().clone()
    }

    fn image(&self, x: Point) -> Point {
        self.map(&x)
    }

    fn domain(&self) -> &Point {
        &self.from
    }

    fn codomain(&self) -> &Point {
        &self.to
    }

    fn map(&self, domain: &Point) -> Point {
        Point(domain.0 + self.to.0 - self.from.0)
    }
}

/// A morphism whose value at its domain is given apart from its codomain.
struct Table {
    from: Point,
    to: Point,
    value: Point,
}

impl Morphism<Point, Point> for Table {
    fn source(&self) -> Point {
        self.domain().clone()
    }

    fn target(&self) -> Point {
        self.codomain().clone()
    }

    fn image(&self, x: Point) -> Point {
        self.map(&x)
    }

    fn domain(&self) -> &Point {
        &self.from
    }

    fn codomain(&self) -> &Point {
        &self.to
    }

    fn map(&self, _domain: &Point) -> Point {
        self.value.clone()
    }
}

/// Names a point.
struct Name {
    from: Point,
    to: Label,
}

impl Morphism<Point, Label> for Name {
    fn source(&self) -> Point {
        self.domain().clone()
    }

    fn target(&self) -> Label {
        self.codomain().clone()
    }

    fn image(&self, x: Point) -> Label {
        self.map(&x)
    }

    fn domain(&self) -> &Point {
        &self.from
    }

    fn codomain(&self) -> &Label {
        &self.to
    }

    fn map(&self, domain: &Point) -> Label {
        Label(format!("p{}", domain.0))
    }
}

/// Reads the number back out of a label.
struct Parse {
    from: Label,
    to: Point,
}

impl Morphism<Label, Point> for Parse {
    fn source(&self) -> Label {
        self.domain().clone()
    }

    fn target(&self) -> Point {
        self.codomain().clone()
    }

    fn image(&self, x: Label) -> Point {
        self.map(&x)
    }

    fn domain(&self) -> &Label {
        &self.from
    }

    fn codomain(&self) -> &Point {
        &self.to
    }

    fn map(&self, domain: &Label) -> Point {
        Point(domain.0[1..].parse().unwrap())
    }
}

fn shift(from: u32, to: u32) -> Box<dyn Morphism<Point, Point>> {
    Box::new(Shift { from: Point(from), to: Point(to) })
}

fn table(from: u32, to: u32, value: u32) -> Box<dyn Morphism<Point, Point>> {
    Box::new(Table { from: Point(from), to: Point(to), value: Point(value) })
}

fn name(from: u32) -> Box<dyn Morphism<Point, Label>> {
    Box::new(Name { from: Point(from), to: Label(format!("p{}", from)) })
}

fn parse(from: u32) -> Box<dyn Morphism<Label, Point>> {
    Box::new(Parse { from: Label(format!("p{}", from)), to: Point(from) })
}

#[test]
fn morphisms_with_equal_domain_codomain_and_image_are_equal() {
    assert!(check_eq_morphisms(&shift(1, 4), &shift(1, 4)));
}

#[test]
fn a_morphism_equals_itself() {
    let f = shift(2, 7);
    assert!(check_eq_morphisms(&f, &f));
}

#[test]
fn morphisms_with_different_domains_are_not_equal() {
    assert!(!check_eq_morphisms(&shift(1, 4), &shift(2, 4)));
}

#[test]
fn morphisms_with_different_codomains_are_not_equal() {
    assert!(!check_eq_morphisms(&table(1, 4, 9), &table(1, 5, 9)));
}

#[test]
fn morphisms_with_different_images_of_the_domain_are_not_equal() {
    assert!(!check_eq_morphisms(&table(1, 4, 4), &table(1, 4, 5)));
}

// Equality samples `map` at the declared domain only. This is a deliberate
// simplification, not a general law: two different implementations that
// agree there are equal.
#[test]
fn equality_samples_only_the_declared_domain() {
    assert!(check_eq_morphisms(&shift(1, 4), &table(1, 4, 4)));
    assert!(check_eq_morphisms(&table(1, 4, 4), &shift(1, 4)));
}

#[test]
fn morphism_equality_is_symmetric_and_transitive_on_examples() {
    let f = shift(1, 4);
    let g = table(1, 4, 4);
    let h = shift(1, 4);
    assert!(check_eq_morphisms(&f, &g));
    assert!(check_eq_morphisms(&g, &f));
    assert!(check_eq_morphisms(&g, &h));
    assert!(check_eq_morphisms(&f, &h));
}

#[test]
fn compose_applies_first_then_second() {
    assert_eq!(compose(&Point(1), &shift(1, 4), &shift(4, 9)), Point(9));
}

#[test]
fn compose_crosses_object_kinds() {
    assert_eq!(compose(&Point(3), &name(3), &parse(3)), Point(3));
    assert_eq!(compose(&Label("p3".to_string()), &parse(3), &name(3)), Label("p3".to_string()));
}

#[test]
fn compose_works_on_concrete_morphism_types() {
    let f = Box::new(Shift { from: Point(0), to: Point(2) });
    let g = Box::new(Name { from: Point(2), to: Label("p2".to_string()) });
    assert_eq!(compose(&Point(0), &f, &g), Label("p2".to_string()));
}

#[test]
fn composition_is_associative_at_a_value() {
    let a = Point(1);
    let f = shift(1, 4);
    let g = name(4);
    let h = parse(4);
    let left = h.map(&compose(&a, &f, &g));
    let right = compose(&f.map(&a), &g, &h);
    assert_eq!(left, Point(4));
    assert_eq!(left, right);
}
