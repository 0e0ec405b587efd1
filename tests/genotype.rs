use noodles::genotype::{Allele, Genotype, ParseError, Phasing, TryFromAllelesError};

fn genotype(alleles: Vec<Allele>) -> Genotype {
    Genotype::try_from(alleles).unwrap()
}

#[test]
fn test_from_str() {
    assert_eq!(
        "0/1".parse(),
        Ok(genotype(vec![
            Allele::new(Some(0), Phasing::Unphased),
            Allele::new(Some(1), Phasing::Unphased),
        ]))
    );

    assert_eq!(
        "0|1".parse(),
        Ok(genotype(vec![
            Allele::new(Some(0), Phasing::Phased),
            Allele::new(Some(1), Phasing::Phased),
        ]))
    );

    assert_eq!(
        "./.".parse(),
        Ok(genotype(vec![
            Allele::new(None, Phasing::Unphased),
            Allele::new(None, Phasing::Unphased),
        ]))
    );

    assert_eq!(
        "0".parse(),
        Ok(genotype(vec![Allele::new(Some(0), Phasing::Phased)]))
    );

    assert_eq!(
        "0/1/2".parse(),
        Ok(genotype(vec![
            Allele::new(Some(0), Phasing::Unphased),
            Allele::new(Some(1), Phasing::Unphased),
            Allele::new(Some(2), Phasing::Unphased),
        ]))
    );

    assert_eq!(
        "0/1|2".parse(),
        Ok(genotype(vec![
            Allele::new(Some(0), Phasing::Unphased),
            Allele::new(Some(1), Phasing::Unphased),
            Allele::new(Some(2), Phasing::Phased),
        ]))
    );

    assert_eq!(
        "|0/1/2".parse(),
        Ok(genotype(vec![
            Allele::new(Some(0), Phasing::Phased),
            Allele::new(Some(1), Phasing::Unphased),
            Allele::new(Some(2), Phasing::Unphased),
        ]))
    );

    assert!(matches!(
        "0:1".parse::<Genotype>(),
        Err(ParseError::InvalidAllele(_))
    ));
}

#[test]
fn test_try_from_alleles_for_genotype() {
    let alleles = vec![
        Allele::new(Some(0), Phasing::Unphased),
        Allele::new(Some(1), Phasing::Unphased),
    ];
    let expected = genotype(alleles.clone());
    assert_eq!(Genotype::try_from(alleles), Ok(expected));

    assert_eq!(
        Genotype::try_from(Vec::new()),
        Err(TryFromAllelesError::Empty)
    );
}

#[test]
fn empty_text_is_refused() {
    assert_eq!("".parse::<Genotype>(), Err(ParseError::Empty));
}

#[test]
fn empty_allele_is_refused() {
    assert!(matches!(
        "0/".parse::<Genotype>(),
        Err(ParseError::InvalidAllele(noodles::genotype::AlleleError::Empty))
    ));
}

#[test]
fn large_positions_are_read() {
    let g: Genotype = "10|123".parse().unwrap();
    assert_eq!(
        g.alleles(),
        &[
            Allele::new(Some(10), Phasing::Phased),
            Allele::new(Some(123), Phasing::Phased),
        ]
    );
    assert!("99999999999999999999999".parse::<Genotype>().is_err());
}

#[test]
fn try_from_keeps_the_alleles() {
    let alleles = vec![Allele::new(None, Phasing::Phased)];
    let g = Genotype::try_from(alleles.clone()).unwrap();
    assert_eq!(g.alleles(), &alleles[..]);
    assert_eq!(g.len(), 1);
}
