use curve25519_dalek::ristretto::RistrettoPoint;
use curve25519_dalek::Scalar;
use rand::RngCore;
use rlnc_poc::blocks::{random_u8_slice, Committer};
use rlnc_poc::node::{Chunk, Message, Node, ReceiveError};
use rlnc_poc::CodingError;

/// Generators enough for `chunk_words` words of 32 bytes under the
/// packed scheme: each scalar carries 252 bits, rounded up.
fn committer_for(chunk_words: usize) -> Committer {
    Committer::new((chunk_words * 32 * 8 + 251) / 252)
}

#[test]
fn test_source_node() {
    let num_chunks = 3;
    let chunk_size = 4;
    let committer = committer_for(chunk_size);
    let block = random_u8_slice(num_chunks * chunk_size * 32);
    let source_node = Node::new_source(&committer, &block, num_chunks).unwrap();
    assert_eq!(source_node.chunks().len(), num_chunks);
    assert_eq!(source_node.commitments().len(), num_chunks);
}

#[test]
fn test_roundtrip() {
    let num_chunks = 8;
    let chunk_size = 2048;
    let mut block = vec![0; num_chunks * chunk_size];
    rand::thread_rng().fill_bytes(&mut block);
    for i in (31..block.len()).step_by(32) {
        block[i] = 0;
    }
    // Each scalar represents 252 bits. We add 251 to round up the result,
    // since if we need 1.1 scalars we need 2.
    let committer = Committer::new((chunk_size * 8 + 251) / 252);
    let source_node = Node::new_source(&committer, &block, num_chunks).unwrap();
    assert_eq!(source_node.chunks().len(), num_chunks);
    assert_eq!(source_node.commitments().len(), num_chunks);

    let mut destination_node = Node::new(&committer, num_chunks);

    for i in 0..num_chunks {
        let message = source_node.send().unwrap();
        destination_node
            .receive(message)
            .or_else(|e| match e {
                ReceiveError::LinearlyDependentChunk => Ok(()),
                _ => Err(e),
            })
            .unwrap();
        // Full rank arrives exactly with the last independent chunk.
        assert_eq!(destination_node.is_full(), i == num_chunks - 1);
    }

    assert!(destination_node.is_full());

    let decoded = destination_node.decode().unwrap();

    assert_eq!(decoded.len(), block.len());
    for i in 0..decoded.len() {
        assert_eq!(
            decoded[i], block[i],
            "Failed to match at idx {} left {} right {}",
            i, decoded[i], block[i]
        );
    }
}

#[test]
fn test_send_receive() {
    let num_chunks = 3;
    let chunk_size = 4;
    let committer = committer_for(chunk_size);
    let block = random_u8_slice(num_chunks * chunk_size * 32);
    let source_node = Node::new_source(&committer, &block, num_chunks).unwrap();
    let message = source_node.send().unwrap();
    let mut destination_node = Node::new(&committer, num_chunks);
    destination_node
        .receive(message)
        .or_else(|e| match e {
            ReceiveError::LinearlyDependentChunk => Ok(()),
            _ => Err(e),
        })
        .unwrap();
    assert_eq!(destination_node.chunks().len(), 1);
    assert_eq!(destination_node.commitments().len(), num_chunks);

    destination_node.send().unwrap();
}

#[test]
fn test_decode() {
    let num_chunks = 3;
    let chunk_size = 4;
    let committer = committer_for(chunk_size);
    let block = random_u8_slice(num_chunks * chunk_size * 32);
    let source_node = Node::new_source(&committer, &block, num_chunks).unwrap();
    let message1 = source_node.send().unwrap();
    let message2 = source_node.send().unwrap();
    let message3 = source_node.send().unwrap();
    let mut destination_node = Node::new(&committer, num_chunks);
    destination_node
        .receive(message1)
        .or_else(|e| match e {
            ReceiveError::LinearlyDependentChunk => Ok(()),
            _ => Err(e),
        })
        .unwrap();
    destination_node
        .receive(message2)
        .or_else(|e| match e {
            ReceiveError::LinearlyDependentChunk => Ok(()),
            _ => Err(e),
        })
        .unwrap();
    destination_node
        .receive(message3)
        .or_else(|e| match e {
            ReceiveError::LinearlyDependentChunk => Ok(()),
            _ => Err(e),
        })
        .unwrap();
    let decoded = destination_node.decode().unwrap();
    assert_eq!(decoded.len(), block.len());
    assert_eq!(decoded, block);
}

#[test]
fn test_dependent_delivery_rejected() {
    // Delivering the same message twice: the second copy carries no
    // news and is reported as linearly dependent, leaving one chunk.
    let num_chunks = 3;
    let committer = committer_for(4);
    let block = random_u8_slice(num_chunks * 4 * 32);
    let source_node = Node::new_source(&committer, &block, num_chunks).unwrap();
    let message = source_node.send().unwrap();
    let mut destination_node = Node::new(&committer, num_chunks);
    destination_node.receive(message.clone()).unwrap();
    assert_eq!(
        destination_node.receive(message).unwrap_err(),
        ReceiveError::LinearlyDependentChunk
    );
    assert_eq!(destination_node.chunks().len(), 1);
}

#[test]
fn test_forged_message_rejected() {
    // Tampering with the data invalidates the homomorphic check and
    // leaves the node untouched.
    let num_chunks = 3;
    let committer = committer_for(4);
    let block = random_u8_slice(num_chunks * 4 * 32);
    let source_node = Node::new_source(&committer, &block, num_chunks).unwrap();
    let message = source_node.send().unwrap();

    let mut data = message.chunk().data().clone();
    data[0] += Scalar::ONE;
    let forged = Message::new(
        Chunk::new(data, message.coefficients().clone()),
        message.commitments().clone(),
    );

    let mut destination_node = Node::new(&committer, num_chunks);
    assert_eq!(
        destination_node.receive(forged).unwrap_err(),
        ReceiveError::InvalidMessage
    );
    assert_eq!(destination_node.chunks().len(), 0);
    assert_eq!(destination_node.commitments().len(), 0);
}

#[test]
fn test_cross_block_rejected() {
    // A message from a source over a different block fails the
    // commitment comparison.
    let num_chunks = 3;
    let committer = committer_for(4);
    let block_a = random_u8_slice(num_chunks * 4 * 32);
    let block_b = random_u8_slice(num_chunks * 4 * 32);
    let source_a = Node::new_source(&committer, &block_a, num_chunks).unwrap();
    let source_b = Node::new_source(&committer, &block_b, num_chunks).unwrap();

    let mut destination_node = Node::new(&committer, num_chunks);
    destination_node.receive(source_b.send().unwrap()).unwrap();
    assert_eq!(
        destination_node.receive(source_a.send().unwrap()).unwrap_err(),
        ReceiveError::ExistingCommitmentsMismatch
    );
}

#[test]
fn test_send_on_empty_node_fails() {
    let committer = committer_for(4);
    let node = Node::new(&committer, 3);
    assert_eq!(node.send().unwrap_err(), CodingError::Empty);
}

#[test]
fn test_decode_before_full_fails() {
    let committer = committer_for(4);
    let node = Node::new(&committer, 3);
    assert_eq!(node.decode().unwrap_err(), CodingError::Underdetermined);
}

#[test]
fn test_commit_too_long_fails() {
    let committer = Committer::new(2);
    let scalars = vec![Scalar::from(1u32), Scalar::from(2u32), Scalar::from(3u32)];
    assert_eq!(
        committer.commit(&scalars).unwrap_err(),
        CodingError::InputTooLong
    );
}

#[test]
fn test_commitment_homomorphism() {
    // commit(al*u + be*v) == al*commit(u) + be*commit(v)
    let committer = Committer::new(4);
    let mut rng = rand::thread_rng();
    let u: Vec<Scalar> = (0..4).map(|_| Scalar::from(rng.next_u64())).collect();
    let v: Vec<Scalar> = (0..4).map(|_| Scalar::from(rng.next_u64())).collect();
    let al = Scalar::from(rng.next_u64());
    let be = Scalar::from(rng.next_u64());
    let combo: Vec<Scalar> = (0..4).map(|i| al * u[i] + be * v[i]).collect();

    let cu = committer.commit(&u).unwrap();
    let cv = committer.commit(&v).unwrap();
    let ccombo = committer.commit(&combo).unwrap();
    let expected: RistrettoPoint = al * cu + be * cv;
    assert_eq!(ccombo, expected);
}

#[test]
fn test_commitments_hash_tracks_block() {
    let num_chunks = 3;
    let committer = committer_for(4);
    let block_a = random_u8_slice(num_chunks * 4 * 32);
    let block_b = random_u8_slice(num_chunks * 4 * 32);
    let source_a = Node::new_source(&committer, &block_a, num_chunks).unwrap();
    let source_b = Node::new_source(&committer, &block_b, num_chunks).unwrap();

    let a1 = source_a.send().unwrap().commitments_hash();
    let a2 = source_a.send().unwrap().commitments_hash();
    let b1 = source_b.send().unwrap().commitments_hash();
    assert_eq!(a1, a2);
    assert_ne!(a1, b1);
}

#[test]
fn test_fresh_combinations_reach_full_rank() {
    // Independently drawn combinations are linearly independent with
    // overwhelming probability: a receiver fills up in K deliveries.
    for _ in 0..5 {
        let num_chunks = 3;
        let committer = committer_for(4);
        let block = random_u8_slice(num_chunks * 4 * 32);
        let source_node = Node::new_source(&committer, &block, num_chunks).unwrap();
        let mut destination_node = Node::new(&committer, num_chunks);
        for _ in 0..num_chunks {
            destination_node.receive(source_node.send().unwrap()).unwrap();
        }
        assert!(destination_node.is_full());
    }
}

#[test]
fn test_message_serialization() {
    // Setup
    let num_chunks = 3;
    let chunk_size = 4;
    let committer = committer_for(chunk_size);
    let block = random_u8_slice(num_chunks * chunk_size * 32);

    // Create a source node and get a message
    let source_node = Node::new_source(&committer, &block, num_chunks).unwrap();
    let original_message = source_node.send().unwrap();

    // Serialize the message's parts to bytes
    let ser_data = bincode::serialize(original_message.chunk().data()).unwrap();
    let ser_coeffs = bincode::serialize(original_message.chunk().coefficients()).unwrap();
    let ser_comms = bincode::serialize(original_message.commitments()).unwrap();

    // Deserialize back
    let data: Vec<Scalar> = bincode::deserialize(&ser_data).unwrap();
    let coefficients: Vec<Scalar> = bincode::deserialize(&ser_coeffs).unwrap();
    let commitments: Vec<RistrettoPoint> = bincode::deserialize(&ser_comms).unwrap();

    // Verify the deserialized parts
    assert_eq!(
        original_message.chunk().data(),
        &data,
        "Data vectors don't match"
    );
    assert_eq!(
        original_message.chunk().coefficients(),
        &coefficients,
        "Coefficients don't match"
    );
    assert_eq!(
        original_message.commitments(),
        &commitments,
        "Commitments don't match"
    );

    // Verify the rebuilt message can still be verified
    let deserialized_message = Message::new(Chunk::new(data, coefficients), commitments);
    assert!(deserialized_message.verify(&committer).is_ok());
}
