use dispatch::messaging::{load_data, save_data};
use dispatch::{
    process_instruction, Account, Connection, DispatchData, DispatchError, DocumentData,
    Instruction, Message, Outcome, Pubkey,
};

fn program() -> Pubkey {
    Pubkey::new([0; 32])
}

fn mailboxes(owners: &[u8]) -> Vec<Account> {
    let mut accounts = Vec::new();
    for owner in owners {
        let mut account = Account { key: Pubkey::new([*owner; 32]), data: vec![0; 256] };
        save_data(&mut account, DispatchData::new()).unwrap();
        accounts.push(account);
    }
    accounts
}

fn connection(holder: &Account, peer: &Account) -> Option<Connection> {
    load_data(holder).unwrap().connection(&peer.key).cloned()
}

#[test]
fn decode_reads_each_operation() {
    assert_eq!(
        Instruction::decode(&[0, 0, 0, 0, 1, 0x03]),
        Ok(Instruction::AcceptConnection { cipher: vec![0x03] })
    );
    assert_eq!(
        Instruction::decode(&[1, 0, 0, 0, 2, 0x01, 0x02]),
        Ok(Instruction::RequestConnection { cipher: vec![0x01, 0x02] })
    );
    assert_eq!(Instruction::decode(&[2]), Ok(Instruction::BreakConnection));
    assert_eq!(
        Instruction::decode(&[3, 0, 0, 0, 0, 0, 0, 0, 100, 0, 0, 0, 1, 0xaa]),
        Ok(Instruction::SendMessage { timestamp: 100, message: vec![0xaa] })
    );
    assert_eq!(
        Instruction::decode(&[4, 0, 0, 0, 0, 0, 0, 1, 0]),
        Ok(Instruction::GcConversation { older_than: 256 })
    );
    assert_eq!(
        Instruction::decode(&[5, 0xff, 0xff, 0xff, 0xff, 0xff, 0xff, 0xff, 0xff]),
        Ok(Instruction::GcConversations { older_than: u64::MAX })
    );
    assert_eq!(Instruction::decode(&[64]), Ok(Instruction::DocumentClear));
    assert_eq!(
        Instruction::decode(&[65, 0, 0, 0, 1, b'k']),
        Ok(Instruction::DocumentDelete { key: vec![b'k'] })
    );
    assert_eq!(
        Instruction::decode(&[66, 0, 0, 0, 1, b'k', 0, 0, 0, 1, b'v']),
        Ok(Instruction::DocumentPut { key: vec![b'k'], value: vec![b'v'] })
    );
}

#[test]
fn decode_does_not_read_behind_the_operands() {
    assert_eq!(Instruction::decode(&[2, 9, 9]), Ok(Instruction::BreakConnection));
    assert_eq!(
        Instruction::decode(&[1, 0, 0, 0, 0, 9]),
        Ok(Instruction::RequestConnection { cipher: vec![] })
    );
}

#[test]
fn decode_takes_any_other_first_byte_as_unsupported() {
    for opcode in [6u8, 7, 63, 67, 128, 255] {
        assert_eq!(Instruction::decode(&[opcode, 1, 2]), Ok(Instruction::Unsupported { opcode }));
    }
}

#[test]
fn decode_refuses_a_payload_cut_short() {
    let cut: [&[u8]; 12] = [
        &[],
        &[0],
        &[0, 0, 0, 0],
        &[1, 0, 0, 0, 2, 1],
        &[3, 0, 0, 0, 0, 0, 0, 0],
        &[3, 0, 0, 0, 0, 0, 0, 0, 1],
        &[3, 0, 0, 0, 0, 0, 0, 0, 1, 0, 0, 0, 1],
        &[4, 0, 0, 0, 0, 0, 0, 0],
        &[5],
        &[65, 0, 0, 0, 1],
        &[66, 0, 0, 0, 1, b'k'],
        &[66, 0, 0, 0, 1, b'k', 0, 0, 0, 2, b'v'],
    ];
    for payload in cut {
        assert_eq!(Instruction::decode(payload), Err(DispatchError::InvalidInstruction));
    }
}

#[test]
fn request_goes_from_the_first_account_to_the_second() {
    let mut accounts = mailboxes(&[0xa1, 0xb2]);
    let untouched = accounts[0].data.clone();
    assert_eq!(
        process_instruction(&program(), &mut accounts, &[1, 0, 0, 0, 2, 0x01, 0x02]),
        Ok(Outcome::Done)
    );
    assert_eq!(
        connection(&accounts[1], &accounts[0]),
        Some(Connection { pending: true, cipher: vec![0x01, 0x02], inbox: vec![] })
    );
    assert_eq!(accounts[0].data, untouched);
}

#[test]
fn accept_is_done_by_the_first_account() {
    let mut accounts = mailboxes(&[0xb2, 0xa1]);
    assert_eq!(
        process_instruction(&program(), &mut accounts, &[0, 0, 0, 0, 1, 0x03]),
        Err(DispatchError::ConnectionNotFound)
    );
    accounts.swap(0, 1);
    process_instruction(&program(), &mut accounts, &[1, 0, 0, 0, 1, 0x09]).unwrap();
    accounts.swap(0, 1);
    assert_eq!(
        process_instruction(&program(), &mut accounts, &[0, 0, 0, 0, 1, 0x03]),
        Ok(Outcome::Done)
    );
    assert_eq!(
        connection(&accounts[0], &accounts[1]),
        Some(Connection { pending: false, cipher: vec![0x09], inbox: vec![] })
    );
    assert_eq!(
        connection(&accounts[1], &accounts[0]),
        Some(Connection { pending: false, cipher: vec![0x03], inbox: vec![] })
    );
}

#[test]
fn send_collect_and_break_through_the_router() {
    let mut accounts = mailboxes(&[0xa1, 0xb2, 0xc3]);
    let bystander = accounts[2].data.clone();
    process_instruction(&program(), &mut accounts, &[1, 0, 0, 0, 0]).unwrap();
    let send = |timestamp: u8| vec![3, 0, 0, 0, 0, 0, 0, 0, timestamp, 0, 0, 0, 1, timestamp];
    for timestamp in [50u8, 150, 100] {
        assert_eq!(
            process_instruction(&program(), &mut accounts, &send(timestamp)),
            Ok(Outcome::Done)
        );
    }
    accounts.swap(0, 1);
    assert_eq!(
        process_instruction(&program(), &mut accounts, &[4, 0, 0, 0, 0, 0, 0, 0, 50]),
        Ok(Outcome::Done)
    );
    assert_eq!(connection(&accounts[0], &accounts[1]).unwrap().inbox.len(), 2);
    assert_eq!(
        process_instruction(&program(), &mut accounts, &[5, 0, 0, 0, 0, 0, 0, 0, 100]),
        Ok(Outcome::Done)
    );
    assert_eq!(
        connection(&accounts[0], &accounts[1]).unwrap().inbox,
        vec![Message { timestamp: 150, message: vec![150] }]
    );
    assert_eq!(process_instruction(&program(), &mut accounts, &[2]), Ok(Outcome::Done));
    assert_eq!(connection(&accounts[0], &accounts[1]), None);
    assert_eq!(accounts[2].data, bystander);
}

#[test]
fn documents_through_the_router() {
    let mut account = Account { key: Pubkey::new([7; 32]), data: vec![0; 64] };
    dispatch::documents::save_data(&mut account, DocumentData::new()).unwrap();
    let mut accounts = vec![account];
    let put = [66, 0, 0, 0, 1, b'k', 0, 0, 0, 1, b'v'];
    assert_eq!(process_instruction(&program(), &mut accounts, &put), Ok(Outcome::Done));
    assert_eq!(
        dispatch::documents::load_data(&accounts[0]).unwrap().get(b"k"),
        Some(&b"v".to_vec())
    );
    let delete = [65, 0, 0, 0, 1, b'k'];
    assert_eq!(process_instruction(&program(), &mut accounts, &delete), Ok(Outcome::Done));
    assert_eq!(dispatch::documents::load_data(&accounts[0]).unwrap().get(b"k"), None);
    process_instruction(&program(), &mut accounts, &put).unwrap();
    assert_eq!(process_instruction(&program(), &mut accounts, &[64]), Ok(Outcome::Done));
    assert_eq!(dispatch::documents::load_data(&accounts[0]), Ok(DocumentData::new()));
}

#[test]
fn an_unknown_first_byte_is_no_error_and_changes_nothing() {
    let mut accounts = mailboxes(&[0xa1, 0xb2]);
    let before = accounts.clone();
    assert_eq!(
        process_instruction(&program(), &mut accounts, &[99, 1, 2, 3]),
        Ok(Outcome::Unsupported)
    );
    assert_eq!(accounts, before);
    assert_eq!(process_instruction(&program(), &mut [], &[200]), Ok(Outcome::Unsupported));
}

#[test]
fn too_few_accounts_are_reported() {
    let two: [&[u8]; 5] = [
        &[0, 0, 0, 0, 0],
        &[1, 0, 0, 0, 0],
        &[2],
        &[3, 0, 0, 0, 0, 0, 0, 0, 1, 0, 0, 0, 0],
        &[4, 0, 0, 0, 0, 0, 0, 0, 1],
    ];
    for payload in two {
        let mut accounts = mailboxes(&[0xa1]);
        let before = accounts.clone();
        assert_eq!(
            process_instruction(&program(), &mut accounts, payload),
            Err(DispatchError::NotEnoughAccounts)
        );
        assert_eq!(accounts, before);
    }
    let one: [&[u8]; 4] = [
        &[5, 0, 0, 0, 0, 0, 0, 0, 1],
        &[64],
        &[65, 0, 0, 0, 0],
        &[66, 0, 0, 0, 0, 0, 0, 0, 0],
    ];
    for payload in one {
        assert_eq!(
            process_instruction(&program(), &mut [], payload),
            Err(DispatchError::NotEnoughAccounts)
        );
    }
}

#[test]
fn a_malformed_payload_is_reported_before_the_accounts_are_counted() {
    let mut accounts = mailboxes(&[0xa1, 0xb2]);
    let before = accounts.clone();
    assert_eq!(
        process_instruction(&program(), &mut accounts, &[]),
        Err(DispatchError::InvalidInstruction)
    );
    assert_eq!(
        process_instruction(&program(), &mut [], &[1, 0, 0]),
        Err(DispatchError::InvalidInstruction)
    );
    assert_eq!(accounts, before);
}

#[test]
fn send_without_a_connection_fails_through_the_router() {
    let mut accounts = mailboxes(&[0xa1, 0xb2]);
    let before = accounts.clone();
    assert_eq!(
        process_instruction(
            &program(),
            &mut accounts,
            &[3, 0, 0, 0, 0, 0, 0, 0, 100, 0, 0, 0, 1, 0xaa]
        ),
        Err(DispatchError::ConnectionNotFound)
    );
    assert_eq!(accounts, before);
}
